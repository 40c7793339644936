use vstd::prelude::*;

use crate::board::coord::Coord;
use crate::board::position::{runs_sorted, square_leq, Position, MAX_PIECES};
use crate::board::square::Square;
use crate::chess::layout::PieceLayout;
use crate::chess::piece::PieceKind;
use crate::chess::rules::{none_square, present, within};

verus! {

/// Lexicographic order on coordinates (by `x`, then `y`), strict.
pub open spec fn coord_lt(a: Coord, b: Coord) -> bool {
    a.x < b.x || (a.x == b.x && a.y < b.y)
}

/// `c` comes strictly before `(x, y)` in the lexicographic order.
pub open spec fn before_xy(c: Coord, x: int, y: int) -> bool {
    c.x < x || (c.x == x && c.y < y)
}

/// `c` lies in the L∞ ball of radius `bound` and is not the origin.
pub open spec fn in_ball(c: Coord, bound: int) -> bool {
    c != (Coord { x: 0, y: 0 }) && within(c, bound)
}

/// `sq` lists, in strictly increasing coordinate order, exactly the coordinates accepted by
/// `allowed`, each as its canonical square; none of them has an `i32::MIN` component.
#[verifier::opaque]
pub open spec fn is_listing(sq: Seq<Square>, allowed: spec_fn(Coord) -> bool) -> bool {
    &&& forall|i: int, j: int| 0 <= i < j < sq.len() ==> coord_lt(#[trigger] sq[i].coord_spec(), #[trigger] sq[j].coord_spec())
    &&& forall|i: int| 0 <= i < sq.len() ==> allowed(#[trigger] sq[i].coord_spec())
        && sq[i] == Square::from_coord_spec(sq[i].coord_spec()) && sq[i].coord_spec().abs_fits()
    &&& forall|c: Coord| #[trigger] allowed(c) ==> exists|i: int| 0 <= i < sq.len() && sq[i] == Square::from_coord_spec(c)
}

/// Membership in the L∞ ball of radius `bound`, origin excluded.
pub open spec fn ball(bound: int) -> spec_fn(Coord) -> bool {
    |c: Coord| in_ball(c, bound)
}

/// `sq` lists exactly the squares of the L∞ ball of radius `bound` other than the origin.
pub open spec fn is_ball_listing(sq: Seq<Square>, bound: int) -> bool {
    is_listing(sq, ball(bound))
}

/// All squares within the L∞ bound, excluding the origin, in increasing `(x, y)` order.
pub fn squares_in_linf_ball(bound: i32) -> (out: Vec<Square>)
    ensures
        is_ball_listing(out@, bound as int),
{
    reveal(is_listing);
    let mut out: Vec<Square> = Vec::new();
    if bound < 0 {
        proof {
            assert forall|c: Coord| #[trigger] ball(bound as int)(c) implies exists|i: int| 0 <= i < out@.len() && out@[i] == Square::from_coord_spec(c) by {
                assert(in_ball(c, bound as int));
            }
        }
        return out;
    }
    let b = bound as i64;
    let mut x: i64 = -b;
    while x <= b
        invariant
            0 <= b == bound,
            -b <= x <= b + 1,
            forall|i: int, j: int| 0 <= i < j < out@.len() ==> coord_lt(#[trigger] out@[i].coord_spec(), #[trigger] out@[j].coord_spec()),
            forall|i: int| 0 <= i < out@.len() ==> in_ball(#[trigger] out@[i].coord_spec(), bound as int)
                && out@[i] == Square::from_coord_spec(out@[i].coord_spec()) && out@[i].coord_spec().x < x,
            forall|c: Coord| #[trigger] in_ball(c, bound as int) && c.x < x ==> exists|i: int|
                0 <= i < out@.len() && out@[i] == Square::from_coord_spec(c),
        decreases b + 1 - x,
    {
        let mut y: i64 = -b;
        while y <= b
            invariant
                0 <= b == bound,
                -b <= x <= b,
                -b <= y <= b + 1,
                forall|i: int, j: int| 0 <= i < j < out@.len() ==> coord_lt(#[trigger] out@[i].coord_spec(), #[trigger] out@[j].coord_spec()),
                forall|i: int| 0 <= i < out@.len() ==> in_ball(#[trigger] out@[i].coord_spec(), bound as int)
                    && out@[i] == Square::from_coord_spec(out@[i].coord_spec())
                    && before_xy(out@[i].coord_spec(), x as int, y as int),
                forall|c: Coord| #[trigger] in_ball(c, bound as int) && before_xy(c, x as int, y as int) ==> exists|i: int|
                    0 <= i < out@.len() && out@[i] == Square::from_coord_spec(c),
            decreases b + 1 - y,
        {
            if !(x == 0 && y == 0) {
                let c = Coord::new(x as i32, y as i32);
                let s = Square::from_coord(c);
                let ghost old_out = out@;
                out.push(s);
                proof {
                    assert forall|cc: Coord| #[trigger] in_ball(cc, bound as int) && before_xy(cc, x as int, (y + 1) as int) implies exists|i: int|
                        0 <= i < out@.len() && out@[i] == Square::from_coord_spec(cc) by {
                        if cc == c {
                            assert(out@[out@.len() - 1] == Square::from_coord_spec(cc));
                        } else {
                            assert(before_xy(cc, x as int, y as int));
                            let i = choose|i: int| 0 <= i < old_out.len() && old_out[i] == Square::from_coord_spec(cc);
                            assert(out@[i] == old_out[i]);
                        }
                    }
                }
            } else {
                proof {
                    assert forall|cc: Coord| #[trigger] in_ball(cc, bound as int) && before_xy(cc, x as int, (y + 1) as int) implies exists|i: int|
                        0 <= i < out@.len() && out@[i] == Square::from_coord_spec(cc) by {
                        assert(before_xy(cc, x as int, y as int));
                    }
                }
            }
            y += 1;
        }
        proof {
            assert forall|cc: Coord| #[trigger] in_ball(cc, bound as int) && cc.x < x + 1 implies exists|i: int|
                0 <= i < out@.len() && out@[i] == Square::from_coord_spec(cc) by {
                assert(before_xy(cc, x as int, (b + 1) as int));
            }
        }
        x += 1;
    }
    proof {
        assert forall|i: int| 0 <= i < out@.len() implies ball(bound as int)(#[trigger] out@[i].coord_spec())
            && out@[i] == Square::from_coord_spec(out@[i].coord_spec()) && out@[i].coord_spec().abs_fits() by {
            assert(in_ball(out@[i].coord_spec(), bound as int));
        }
        assert forall|c: Coord| #[trigger] ball(bound as int)(c) implies exists|i: int| 0 <= i < out@.len() && out@[i] == Square::from_coord_spec(c) by {
            assert(in_ball(c, bound as int) && c.x < x);
        }
    }
    out
}

/// Is the square in the L∞ bound? Captured pieces always are.
pub fn is_in_bound(sq: Square, bound: i32) -> (b: bool)
    ensures
        b == (sq.is_none_spec() || within(sq.coord_spec(), bound as int)),
{
    if sq.is_none() {
        return true;
    }
    sq.coord().in_linf_bound(bound)
}

/// A slot of an enumerated position: a captured marker (only when captures are allowed) or a
/// square of the ball, at distance more than one from the black king for the white king.
pub open spec fn slot_ok(kind: PieceKind, s: Square, allowed: spec_fn(Coord) -> bool, allow_captures: bool) -> bool {
    if s.is_none_spec() {
        allow_captures
    } else {
        let c = s.coord_spec();
        &&& allowed(c)
        &&& s == Square::from_coord_spec(c)
        &&& (kind == PieceKind::King ==> c.norm_spec() > 1)
    }
}

/// `p` is one of the canonical placements of the layout within the bound: one slot per piece,
/// each acceptable, no two pieces on a square, unused slots captured, runs sorted.
#[verifier::opaque]
pub open spec fn enumerated_in(layout: PieceLayout, allowed: spec_fn(Coord) -> bool, allow_captures: bool, p: Position) -> bool {
    &&& p.len_spec() == layout.kinds_spec().len()
    &&& forall|i: int| 0 <= i < p@.len() ==> slot_ok(layout.kinds_spec()[i], #[trigger] p@[i], allowed, allow_captures)
    &&& forall|i: int, j: int| 0 <= i < j < p@.len() && present(p@[i]) && present(p@[j]) ==> #[trigger] p@[i] != #[trigger] p@[j]
    &&& forall|i: int| p.len_spec() <= i < MAX_PIECES ==> #[trigger] p.slots()[i] == none_square()
    &&& runs_sorted(p.slots(), layout.runs_spec(), layout.runs_spec().len())
}

/// `p` is one of the canonical placements of the layout within the L∞ bound.
pub open spec fn enumerated_ok(layout: PieceLayout, bound: int, allow_captures: bool, p: Position) -> bool {
    enumerated_in(layout, ball(bound), allow_captures, p)
}

/// Where the runs before run `g` end.
pub open spec fn runs_prefix_end(layout: PieceLayout, g: int) -> int {
    if g < layout.runs_spec().len() { layout.runs_spec()[g].start as int } else { layout.kinds_spec().len() as int }
}

/// The partially filled slot array `cur` is a valid placement of the runs before `g`, whose
/// pieces are exactly marked in `used`, with the slots past the layout captured.
#[verifier::opaque]
pub open spec fn partial_ok(
    layout: PieceLayout,
    allowed: spec_fn(Coord) -> bool,
    allow_captures: bool,
    squares: Seq<Square>,
    used: Seq<bool>,
    cur: Seq<Square>,
    g: int,
) -> bool {
    let pre = runs_prefix_end(layout, g);
    &&& cur.len() == MAX_PIECES
    &&& forall|i: int| 0 <= i < pre ==> slot_ok(layout.kinds_spec()[i], #[trigger] cur[i], allowed, allow_captures)
    &&& forall|i: int, j: int| 0 <= i < j < pre && present(cur[i]) && present(cur[j]) ==> #[trigger] cur[i] != #[trigger] cur[j]
    &&& forall|i: int| layout.kinds_spec().len() <= i < MAX_PIECES ==> #[trigger] cur[i] == none_square()
    &&& runs_sorted(cur, layout.runs_spec(), g as nat)
    &&& forall|i: int| 0 <= i < pre && present(cur[i]) ==> exists|idx: int|
        0 <= idx < squares.len() && used[idx] && #[trigger] squares[idx] == cur[i]
    &&& forall|idx: int| 0 <= idx < used.len() && #[trigger] used[idx] ==> exists|i: int|
        0 <= i < pre && present(cur[i]) && cur[i] == squares[idx]
}

/// The first `n` slots of `s` are those of `t`.
pub open spec fn agrees_on(s: Seq<Square>, t: Seq<Square>, n: int) -> bool {
    forall|i: int| 0 <= i < n ==> #[trigger] s[i] == t[i]
}

/// Slots `rs..re` of `s` hold `re - rs - k` captured markers followed by `k` pieces.
pub open spec fn run_shape(s: Seq<Square>, rs: int, re: int, k: int) -> bool {
    &&& 0 <= k <= re - rs
    &&& forall|i: int| rs <= i < re ==> (present(#[trigger] s[i]) <==> i >= re - k)
}

/// The slot of the `a`-th piece of a run ending at `re` that holds `k` pieces.
pub open spec fn piece_slot(s: Seq<Square>, re: int, k: int, a: int) -> Square {
    s[re - k + a]
}

/// The placements that the choice of squares for run `g` still has to reach: they agree with
/// `cur` before the run, hold `k` pieces in it, the first ones on the `chosen` squares and
/// the others on squares listed at or after `start`.
#[verifier::opaque]
pub open spec fn choose_target(
    layout: PieceLayout,
    squares: Seq<Square>,
    cur: Seq<Square>,
    g: int,
    k: int,
    chosen: Seq<usize>,
    start: int,
    s: Seq<Square>,
) -> bool {
    let rs = layout.runs_spec()[g].start as int;
    let re = layout.runs_spec()[g].end as int;
    &&& agrees_on(s, cur, rs)
    &&& run_shape(s, rs, re, k)
    &&& chosen.len() <= k
    &&& forall|a: int| 0 <= a < chosen.len() ==> #[trigger] piece_slot(s, re, k, a) == squares[chosen[a] as int]
    &&& forall|a: int| chosen.len() <= a < k ==> listed_from(squares, start, #[trigger] piece_slot(s, re, k, a))
}

/// `sq` is listed at a position in `lo..hi`.
pub open spec fn listed_in(squares: Seq<Square>, lo: int, hi: int, sq: Square) -> bool {
    exists|idx: int| lo <= idx < hi && idx < squares.len() && squares[idx] == sq
}

/// `sq` is listed at position `start` or later.
pub open spec fn listed_from(squares: Seq<Square>, start: int, sq: Square) -> bool {
    exists|idx: int| start <= idx < squares.len() && squares[idx] == sq
}

/// The context of the enumeration: a well-formed layout of at most `MAX_PIECES` slots, the
/// listing of the ball, and one mark per listed square.
#[verifier::opaque]
pub open spec fn enum_context(layout: PieceLayout, allowed: spec_fn(Coord) -> bool, squares: Seq<Square>, used: Seq<bool>) -> bool {
    &&& layout.wf()
    &&& layout.kinds_spec().len() <= MAX_PIECES
    &&& is_listing(squares, allowed)
    &&& used.len() == squares.len()
}

/// `new` is `old` followed by enumerated placements only.
#[verifier::opaque]
pub open spec fn grows_with_ok(layout: PieceLayout, allowed: spec_fn(Coord) -> bool, allow_captures: bool, old: Seq<Position>, new: Seq<Position>) -> bool {
    &&& new.len() >= old.len()
    &&& forall|j: int| 0 <= j < old.len() ==> #[trigger] new[j] == old[j]
    &&& forall|j: int| old.len() <= j < new.len() ==> enumerated_in(layout, allowed, allow_captures, #[trigger] new[j])
}

/// The positions of `out` from index `from` on are pairwise distinct.
pub open spec fn distinct_from(out: Seq<Position>, from: int) -> bool {
    forall|i: int, j: int| from <= i < j < out.len() ==> #[trigger] out[i] != #[trigger] out[j]
}

/// What an emitted placement of run `g` owes the choice of squares: it agrees with `cur`
/// before the run, holds `k` pieces in it, the first ones on the `chosen` squares and the
/// next one (if any) on a square listed at or after `start`.
pub open spec fn choose_sound(
    layout: PieceLayout,
    squares: Seq<Square>,
    cur: Seq<Square>,
    g: int,
    k: int,
    chosen: Seq<usize>,
    start: int,
    s: Seq<Square>,
) -> bool {
    let rs = layout.runs_spec()[g].start as int;
    let re = layout.runs_spec()[g].end as int;
    &&& agrees_on(s, cur, rs)
    &&& run_shape(s, rs, re, k)
    &&& forall|a: int| 0 <= a < chosen.len() ==> #[trigger] piece_slot(s, re, k, a) == squares[chosen[a] as int]
    &&& chosen.len() < k ==> listed_from(squares, start, piece_slot(s, re, k, chosen.len() as int))
}

/// Slots `rs..re` of `s` hold between `lo` and `hi - 1` pieces, in the shape of a run.
pub open spec fn shaped_between(s: Seq<Square>, rs: int, re: int, lo: int, hi: int) -> bool {
    exists|k2: int| lo <= k2 < hi && #[trigger] run_shape(s, rs, re, k2)
}

/// Two runs of different sizes differ.
proof fn lemma_shapes_differ(s1: Seq<Square>, s2: Seq<Square>, rs: int, re: int, k1: int, k2: int)
    requires
        run_shape(s1, rs, re, k1),
        run_shape(s2, rs, re, k2),
        k1 != k2,
    ensures
        s1 != s2,
{
    let kk = if k1 > k2 { k1 } else { k2 };
    let i = re - kk;
    assert(rs <= i < re);
    if s1 == s2 {
        assert(present(s1[i]) == present(s2[i]));
    }
}

/// Distinct positions of a listing hold distinct squares.
proof fn lemma_listed_distinct(squares: Seq<Square>, allowed: spec_fn(Coord) -> bool, i: int, j: int)
    requires
        is_listing(squares, allowed),
        0 <= i < j < squares.len(),
    ensures
        squares[i] != squares[j],
{
    reveal(is_listing);
    assert(coord_lt(squares[i].coord_spec(), squares[j].coord_spec()));
}

/// A placement that agrees with the placed run up to its end owes the choice of squares.
proof fn lemma_place_sound(
    layout: PieceLayout,
    squares: Seq<Square>,
    allowed: spec_fn(Coord) -> bool,
    cur0: Seq<Square>,
    cur1: Seq<Square>,
    g: int,
    k: int,
    chosen: Seq<usize>,
    s: Seq<Square>,
)
    requires
        0 <= g < layout.runs_spec().len(),
        is_listing(squares, allowed),
        chosen.len() == k,
        forall|a: int| 0 <= a < chosen.len() ==> #[trigger] chosen[a] < squares.len(),
        run_placed(cur1, cur0, squares, chosen, layout.runs_spec()[g].start as int, layout.runs_spec()[g].end as int),
        layout.runs_spec()[g].start <= layout.runs_spec()[g].end,
        s.len() == MAX_PIECES,
        agrees_on(s, cur1, layout.runs_spec()[g].end as int),
    ensures
        choose_sound(layout, squares, cur0, g, k, chosen, squares.len() as int, s),
{
    let rs = layout.runs_spec()[g].start as int;
    let re = layout.runs_spec()[g].end as int;
    assert forall|i: int| 0 <= i < rs implies #[trigger] s[i] == cur0[i] by {
        assert(s[i] == cur1[i]);
    }
    assert forall|i: int| rs <= i < re implies (present(#[trigger] s[i]) <==> i >= re - k) by {
        assert(s[i] == cur1[i]);
        if i >= re - k {
            let a = i - (re - k);
            assert(cur1[rs + (re - rs - chosen.len()) + a] == squares[chosen[a] as int]);
            lemma_ball_elem(squares, allowed, chosen[a] as int);
            crate::board::square::lemma_from_coord_injective(squares[chosen[a] as int].coord_spec(), squares[chosen[a] as int].coord_spec());
        } else {
            assert(cur1[i] == none_square());
        }
    }
    assert forall|a: int| 0 <= a < chosen.len() implies #[trigger] piece_slot(s, re, k, a) == squares[chosen[a] as int] by {
        assert(s[re - k + a] == cur1[re - k + a]);
        assert(cur1[rs + (re - rs - chosen.len()) + a] == squares[chosen[a] as int]);
    }
}

/// Emits every placement that completes `cur` with runs `g` onwards.
fn enum_rec(
    g: usize,
    squares: &Vec<Square>,
    used: &mut Vec<bool>,
    layout: &PieceLayout,
    Ghost(allowed): Ghost<spec_fn(Coord) -> bool>,
    allow_captures: bool,
    cur: &mut [Square; MAX_PIECES],
    out: &mut Vec<Position>,
)
    requires
        enum_context(*layout, allowed, squares@, old(used)@),
        g <= layout.runs_spec().len(),
        partial_ok(*layout, allowed, allow_captures, squares@, old(used)@, old(cur)@, g as int),
    ensures
        final(used)@ == old(used)@,
        forall|i: int| 0 <= i < runs_prefix_end(*layout, g as int) ==> #[trigger] final(cur)@[i] == old(cur)@[i],
        forall|i: int| layout.kinds_spec().len() <= i < MAX_PIECES ==> #[trigger] final(cur)@[i] == none_square(),
        grows_with_ok(*layout, allowed, allow_captures, old(out)@, final(out)@),
        forall|p: Position| #[trigger] enumerated_in(*layout, allowed, allow_captures, p)
            && agrees_on(p.slots(), old(cur)@, runs_prefix_end(*layout, g as int)) ==> final(out)@.contains(p),
        distinct_from(final(out)@, old(out)@.len() as int),
        forall|j: int| old(out)@.len() <= j < final(out)@.len()
            ==> agrees_on(#[trigger] final(out)@[j].slots(), old(cur)@, runs_prefix_end(*layout, g as int)),
    decreases layout.runs_spec().len() - g, 2int, 0int,
{
    let runs = layout.identical_runs();
    proof {
        lemma_partial_tail(*layout, allowed, allow_captures, squares@, used@, cur@, g as int);
        lemma_context(*layout, allowed, squares@, used@);
        if g < runs@.len() {
            lemma_run_inside(*layout, g as int);
        }
    }
    if g == runs.len() {
        let n = layout.piece_count();
        let mut pos = Position::new(n, *cur);
        proof {
            lemma_context(*layout, allowed, squares@, used@);
            crate::board::position::lemma_layout_runs_ordered(*layout, MAX_PIECES as int);
            lemma_partial_sorted(*layout, allowed, allow_captures, squares@, used@, cur@);
            crate::board::position::lemma_canonical_fixed(cur@, layout.runs_spec(), layout.runs_spec().len());
        }
        pos.canonicalize(layout);
        proof {
            lemma_context(*layout, allowed, squares@, used@);
            lemma_complete_ok(*layout, allowed, allow_captures, squares@, used@, cur@, pos);
        }
        let ghost before = out@;
        out.push(pos);
        proof {
            lemma_grows_push(*layout, allowed, allow_captures, before, pos);
            lemma_context(*layout, allowed, squares@, used@);
            assert forall|p: Position| #[trigger] enumerated_in(*layout, allowed, allow_captures, p)
                && agrees_on(p.slots(), old(cur)@, runs_prefix_end(*layout, g as int)) implies out@.contains(p) by {
                lemma_complete_is(*layout, allowed, allow_captures, squares@, used@, cur@, pos, p);
                assert(out@[out@.len() - 1] == pos);
            }
        }
        return;
    }
    let run_start = runs[g].start;
    let run_end = runs[g].end;
    let len = run_end - run_start;
    let min_k = if allow_captures { 0 } else { len };
    let mut k = min_k;
    let mut chosen: Vec<usize> = Vec::new();
    proof {
        lemma_grows_refl(*layout, allowed, allow_captures, out@);
        lemma_partial_tail(*layout, allowed, allow_captures, squares@, used@, cur@, g as int);
    }
    while k <= len
        invariant
            enum_context(*layout, allowed, squares@, used@),
            g < layout.runs_spec().len(),
            run_start == layout.runs_spec()[g as int].start,
            run_end == layout.runs_spec()[g as int].end,
            len == run_end - run_start,
            min_k <= k <= len + 1,
            !allow_captures ==> min_k == len,
            used@ == old(used)@,
            chosen@.len() == 0,
            partial_ok(*layout, allowed, allow_captures, squares@, used@, cur@, g as int),
            forall|i: int| 0 <= i < runs_prefix_end(*layout, g as int) ==> #[trigger] cur@[i] == old(cur)@[i],
            forall|i: int| layout.kinds_spec().len() <= i < MAX_PIECES ==> #[trigger] cur@[i] == none_square(),
            grows_with_ok(*layout, allowed, allow_captures, old(out)@, out@),
            forall|p: Position, k2: int| #[trigger] enumerated_in(*layout, allowed, allow_captures, p)
                && agrees_on(p.slots(), old(cur)@, run_start as int)
                && #[trigger] run_shape(p.slots(), run_start as int, run_end as int, k2) && min_k <= k2 < k
                ==> out@.contains(p),
            distinct_from(out@, old(out)@.len() as int),
            forall|j: int| old(out)@.len() <= j < out@.len() ==> agrees_on(#[trigger] out@[j].slots(), old(cur)@, run_start as int)
                && shaped_between(out@[j].slots(), run_start as int, run_end as int, min_k as int, k as int),
        decreases len + 1 - k,
    {
        let ghost out_before = out@;
        let ghost cur_before = cur@;
        proof {
            lemma_chosen_empty(*layout, squares@, used@, g as int, chosen@);
        }
        enum_choose(g, squares, used, layout, Ghost(allowed), allow_captures, cur, out, 0, k, &mut chosen);
        proof {
            reveal(grows_with_ok);
            assert forall|j: int| old(out)@.len() <= j < out@.len() implies agrees_on(#[trigger] out@[j].slots(), old(cur)@, run_start as int)
                && shaped_between(out@[j].slots(), run_start as int, run_end as int, min_k as int, k + 1) by {
                if j < out_before.len() {
                    assert(out@[j] == out_before[j]);
                    assert(shaped_between(out_before[j].slots(), run_start as int, run_end as int, min_k as int, k as int));
                    let k2 = choose|k2: int| min_k <= k2 < k && #[trigger] run_shape(out_before[j].slots(), run_start as int, run_end as int, k2);
                    assert(run_shape(out@[j].slots(), run_start as int, run_end as int, k2));
                } else {
                    assert(choose_sound(*layout, squares@, cur_before, g as int, k as int, chosen@, 0, out@[j].slots()));
                    assert(run_shape(out@[j].slots(), run_start as int, run_end as int, k as int));
                    assert forall|i: int| 0 <= i < run_start implies #[trigger] out@[j].slots()[i] == old(cur)@[i] by {
                        assert(out@[j].slots()[i] == cur_before[i]);
                    }
                }
            }
            assert forall|i: int, j: int| old(out)@.len() <= i < j < out@.len() implies #[trigger] out@[i] != #[trigger] out@[j] by {
                if j >= out_before.len() && i < out_before.len() {
                    assert(out@[i] == out_before[i]);
                    assert(shaped_between(out_before[i].slots(), run_start as int, run_end as int, min_k as int, k as int));
                    let k2 = choose|k2: int| min_k <= k2 < k && #[trigger] run_shape(out_before[i].slots(), run_start as int, run_end as int, k2);
                    assert(choose_sound(*layout, squares@, cur_before, g as int, k as int, chosen@, 0, out@[j].slots()));
                    lemma_shapes_differ(out@[i].slots(), out@[j].slots(), run_start as int, run_end as int, k2, k as int);
                } else if j < out_before.len() {
                    assert(out@[i] == out_before[i]);
                    assert(out@[j] == out_before[j]);
                }
            }
            lemma_grows_trans(*layout, allowed, allow_captures, old(out)@, out_before, out@);
            lemma_context(*layout, allowed, squares@, used@);
            lemma_partial_frame(*layout, allowed, allow_captures, squares@, used@, cur_before, cur@, g as int);
            lemma_run_inside(*layout, g as int);
            assert(chosen@ =~= Seq::<usize>::empty());
            assert forall|p: Position, k2: int| #[trigger] enumerated_in(*layout, allowed, allow_captures, p)
                && agrees_on(p.slots(), old(cur)@, run_start as int)
                && #[trigger] run_shape(p.slots(), run_start as int, run_end as int, k2) && min_k <= k2 < k + 1
                implies out@.contains(p) by {
                if k2 < k {
                    lemma_grows_contains(*layout, allowed, allow_captures, out_before, out@, p);
                } else {
                    lemma_target_start(*layout, allowed, allow_captures, squares@, old(cur)@, cur_before, g as int, k as int, p);
                }
            }
        }
        k += 1;
    }
    proof {
        lemma_context(*layout, allowed, squares@, used@);
        lemma_run_inside(*layout, g as int);
        assert forall|p: Position| #[trigger] enumerated_in(*layout, allowed, allow_captures, p)
            && agrees_on(p.slots(), old(cur)@, runs_prefix_end(*layout, g as int)) implies out@.contains(p) by {
            let k2 = lemma_run_shape_exists(*layout, allowed, allow_captures, p, g as int);
            assert(run_shape(p.slots(), run_start as int, run_end as int, k2));
        }
    }
}

/// Extends `chosen` (increasing indices of free squares, all before `start`) to `k` indices in
/// every possible way, and for each choice places the run `g` and emits the completions.
#[verifier::rlimit(100)]
fn enum_choose(
    g: usize,
    squares: &Vec<Square>,
    used: &mut Vec<bool>,
    layout: &PieceLayout,
    Ghost(allowed): Ghost<spec_fn(Coord) -> bool>,
    allow_captures: bool,
    cur: &mut [Square; MAX_PIECES],
    out: &mut Vec<Position>,
    start: usize,
    k: usize,
    chosen: &mut Vec<usize>,
)
    requires
        enum_context(*layout, allowed, squares@, old(used)@),
        g < layout.runs_spec().len(),
        partial_ok(*layout, allowed, allow_captures, squares@, old(used)@, old(cur)@, g as int),
        k <= layout.runs_spec()[g as int].end - layout.runs_spec()[g as int].start,
        k < layout.runs_spec()[g as int].end - layout.runs_spec()[g as int].start ==> allow_captures,
        old(chosen)@.len() <= k,
        start <= squares@.len(),
        chosen_ok(*layout, squares@, old(used)@, g as int, old(chosen)@, start as int),
    ensures
        final(used)@ == old(used)@,
        final(chosen)@ == old(chosen)@,
        forall|i: int| 0 <= i < runs_prefix_end(*layout, g as int) ==> #[trigger] final(cur)@[i] == old(cur)@[i],
        forall|i: int| layout.kinds_spec().len() <= i < MAX_PIECES ==> #[trigger] final(cur)@[i] == none_square(),
        grows_with_ok(*layout, allowed, allow_captures, old(out)@, final(out)@),
        forall|p: Position| #[trigger] enumerated_in(*layout, allowed, allow_captures, p)
            && choose_target(*layout, squares@, old(cur)@, g as int, k as int, old(chosen)@, start as int, p.slots())
            ==> final(out)@.contains(p),
        distinct_from(final(out)@, old(out)@.len() as int),
        forall|j: int| old(out)@.len() <= j < final(out)@.len()
            ==> choose_sound(*layout, squares@, old(cur)@, g as int, k as int, old(chosen)@, start as int, #[trigger] final(out)@[j].slots()),
    decreases layout.runs_spec().len() - g, 1int, squares@.len() - start,
{
    if chosen.len() == k {
        proof {
            lemma_chosen_widen(*layout, squares@, used@, g as int, chosen@, start as int);
            assert(chosen_ok(*layout, squares@, used@, g as int, chosen@, squares@.len() as int));
        }
        enum_place(g, squares, used, layout, Ghost(allowed), allow_captures, cur, out, k, chosen);
        proof {
            assert forall|j: int| old(out)@.len() <= j < out@.len()
                implies choose_sound(*layout, squares@, old(cur)@, g as int, k as int, old(chosen)@, start as int, #[trigger] out@[j].slots()) by {
                assert(choose_sound(*layout, squares@, old(cur)@, g as int, k as int, old(chosen)@, squares@.len() as int, out@[j].slots()));
            }
            assert forall|p: Position| #[trigger] enumerated_in(*layout, allowed, allow_captures, p)
                && choose_target(*layout, squares@, old(cur)@, g as int, k as int, old(chosen)@, start as int, p.slots())
                implies out@.contains(p) by {
                reveal(choose_target);
                assert(choose_target(*layout, squares@, old(cur)@, g as int, k as int, old(chosen)@, squares@.len() as int, p.slots()));
            }
        }
        return;
    }
    proof {
        lemma_context(*layout, allowed, squares@, used@);
        lemma_run_inside(*layout, g as int);
    }
    let runs = layout.identical_runs();
    let run_start = runs[g].start;
    let kind = layout.kind(run_start);
    let mut i = start;
    proof {
        lemma_context(*layout, allowed, squares@, used@);
        lemma_grows_refl(*layout, allowed, allow_captures, out@);
        lemma_partial_tail(*layout, allowed, allow_captures, squares@, used@, cur@, g as int);
    }
    while i < squares.len()
        invariant
            start <= i <= squares@.len(),
            enum_context(*layout, allowed, squares@, used@),
            used@ == old(used)@,
            chosen@ == old(chosen)@,
            chosen@.len() < k,
            g < layout.runs_spec().len(),
            run_start == layout.runs_spec()[g as int].start,
            kind == layout.kinds_spec()[run_start as int],
            k <= layout.runs_spec()[g as int].end - layout.runs_spec()[g as int].start,
            k < layout.runs_spec()[g as int].end - layout.runs_spec()[g as int].start ==> allow_captures,
            partial_ok(*layout, allowed, allow_captures, squares@, used@, cur@, g as int),
            forall|a: int| 0 <= a < runs_prefix_end(*layout, g as int) ==> #[trigger] cur@[a] == old(cur)@[a],
            forall|a: int| layout.kinds_spec().len() <= a < MAX_PIECES ==> #[trigger] cur@[a] == none_square(),
            chosen_ok(*layout, squares@, used@, g as int, chosen@, start as int),
            grows_with_ok(*layout, allowed, allow_captures, old(out)@, out@),
            forall|p: Position| #[trigger] enumerated_in(*layout, allowed, allow_captures, p)
                && choose_target(*layout, squares@, old(cur)@, g as int, k as int, chosen@, start as int, p.slots())
                && listed_in(squares@, start as int, i as int, piece_slot(p.slots(), layout.runs_spec()[g as int].end as int, k as int, chosen@.len() as int))
                ==> out@.contains(p),
            distinct_from(out@, old(out)@.len() as int),
            forall|j: int| old(out)@.len() <= j < out@.len()
                ==> choose_sound(*layout, squares@, old(cur)@, g as int, k as int, chosen@, start as int, #[trigger] out@[j].slots())
                    && listed_in(squares@, start as int, i as int, piece_slot(out@[j].slots(), layout.runs_spec()[g as int].end as int, k as int, chosen@.len() as int)),
        decreases squares@.len() - i,
    {
        let ghost out_top = out@;
        proof {
            lemma_context(*layout, allowed, squares@, used@);
            lemma_run_inside(*layout, g as int);
        }
        let kind_ok = if kind == PieceKind::King {
            proof {
                lemma_ball_elem(squares@, allowed, i as int);
            }
            squares[i].coord().chebyshev_norm() > 1
        } else {
            true
        };
        if !used[i] && kind_ok {
            let ghost out_before = out@;
            let ghost cur_before = cur@;
            chosen.push(i);
            proof {
                lemma_chosen_push(*layout, squares@, used@, g as int, old(chosen)@, start as int, i as int);
            }
            let ghost pushed = chosen@;
            enum_choose(g, squares, used, layout, Ghost(allowed), allow_captures, cur, out, i + 1, k, chosen);
            chosen.pop();
            proof {
                assert(chosen@ =~= old(chosen)@);
                lemma_grows_trans(*layout, allowed, allow_captures, old(out)@, out_before, out@);
                lemma_context(*layout, allowed, squares@, used@);
                lemma_partial_frame(*layout, allowed, allow_captures, squares@, used@, cur_before, cur@, g as int);
                assert(pushed == old(chosen)@.push(i));
                assert forall|p: Position| #[trigger] enumerated_in(*layout, allowed, allow_captures, p)
                    && choose_target(*layout, squares@, old(cur)@, g as int, k as int, chosen@, start as int, p.slots())
                    && squares@[i as int] == piece_slot(p.slots(), layout.runs_spec()[g as int].end as int, k as int, chosen@.len() as int)
                    implies out@.contains(p) by {
                    lemma_choose_step(*layout, allowed, allow_captures, squares@, old(cur)@, cur_before, g as int, k as int,
                        chosen@, start as int, i as int, p);
                }
                assert(grows_with_ok(*layout, allowed, allow_captures, out_top, out@));
                reveal(grows_with_ok);
                let re = layout.runs_spec()[g as int].end as int;
                let cl = chosen@.len() as int;
                assert forall|j: int| old(out)@.len() <= j < out@.len()
                    implies choose_sound(*layout, squares@, old(cur)@, g as int, k as int, chosen@, start as int, #[trigger] out@[j].slots())
                        && listed_in(squares@, start as int, i + 1, piece_slot(out@[j].slots(), re, k as int, cl)) by {
                    if j < out_before.len() {
                        assert(out@[j] == out_before[j]);
                        let sq = piece_slot(out@[j].slots(), re, k as int, cl);
                        let idx = choose|idx: int| start <= idx < i && idx < squares@.len() && squares@[idx] == sq;
                    } else {
                        let sl = out@[j].slots();
                        assert(choose_sound(*layout, squares@, cur_before, g as int, k as int, pushed, i + 1, sl));
                        assert(piece_slot(sl, re, k as int, cl) == squares@[pushed[cl] as int]);
                        assert forall|a: int| 0 <= a < cl implies #[trigger] piece_slot(sl, re, k as int, a) == squares@[chosen@[a] as int] by {
                            assert(pushed[a] == chosen@[a]);
                        }
                        assert forall|ii: int| 0 <= ii < layout.runs_spec()[g as int].start implies #[trigger] sl[ii] == old(cur)@[ii] by {
                            assert(sl[ii] == cur_before[ii]);
                        }
                        assert(listed_from(squares@, start as int, piece_slot(sl, re, k as int, cl)));
                    }
                }
                assert forall|a: int, b: int| old(out)@.len() <= a < b < out@.len() implies #[trigger] out@[a] != #[trigger] out@[b] by {
                    if b >= out_before.len() && a < out_before.len() {
                        assert(out@[a] == out_before[a]);
                        let sq = piece_slot(out_before[a].slots(), re, k as int, cl);
                        let idx = choose|idx: int| start <= idx < i && idx < squares@.len() && squares@[idx] == sq;
                        assert(choose_sound(*layout, squares@, cur_before, g as int, k as int, pushed, i + 1, out@[b].slots()));
                        assert(piece_slot(out@[b].slots(), re, k as int, cl) == squares@[i as int]);
                        lemma_context(*layout, allowed, squares@, used@);
                        lemma_listed_distinct(squares@, allowed, idx, i as int);
                    } else if b < out_before.len() {
                        assert(out@[a] == out_before[a]);
                        assert(out@[b] == out_before[b]);
                    }
                }
            }
        } else {
            proof {
                assert forall|p: Position| #[trigger] enumerated_in(*layout, allowed, allow_captures, p)
                    && choose_target(*layout, squares@, old(cur)@, g as int, k as int, chosen@, start as int, p.slots())
                    && squares@[i as int] == piece_slot(p.slots(), layout.runs_spec()[g as int].end as int, k as int, chosen@.len() as int)
                    implies out@.contains(p) by {
                    lemma_choose_blocked(*layout, allowed, allow_captures, squares@, used@, cur@, old(cur)@, g as int, k as int,
                        chosen@, start as int, i as int, p);
                }
                lemma_grows_refl(*layout, allowed, allow_captures, out@);
            }
        }
        proof {
            let re = layout.runs_spec()[g as int].end as int;
            let cl = chosen@.len() as int;
            assert forall|j: int| old(out)@.len() <= j < out@.len()
                implies listed_in(squares@, start as int, i + 1, piece_slot(#[trigger] out@[j].slots(), re, k as int, cl)) by {
                let sq = piece_slot(out@[j].slots(), re, k as int, cl);
                if listed_in(squares@, start as int, i as int, sq) {
                    let idx = choose|idx: int| start <= idx < i && idx < squares@.len() && squares@[idx] == sq;
                }
            }
        }
        proof {
            assert forall|p: Position| #[trigger] enumerated_in(*layout, allowed, allow_captures, p)
                && choose_target(*layout, squares@, old(cur)@, g as int, k as int, chosen@, start as int, p.slots())
                && listed_in(squares@, start as int, i + 1, piece_slot(p.slots(), layout.runs_spec()[g as int].end as int, k as int, chosen@.len() as int))
                implies out@.contains(p) by {
                let sq = piece_slot(p.slots(), layout.runs_spec()[g as int].end as int, k as int, chosen@.len() as int);
                let idx = choose|idx: int| start <= idx < i + 1 && idx < squares@.len() && squares@[idx] == sq;
                if idx < i {
                    assert(listed_in(squares@, start as int, i as int, sq));
                    lemma_grows_contains(*layout, allowed, allow_captures, out_top, out@, p);
                }
            }
        }
        proof {
            lemma_chosen_widen(*layout, squares@, used@, g as int, chosen@, start as int);
        }
        i += 1;
    }
    proof {
        lemma_run_inside(*layout, g as int);
        assert forall|p: Position| #[trigger] enumerated_in(*layout, allowed, allow_captures, p)
            && choose_target(*layout, squares@, old(cur)@, g as int, k as int, old(chosen)@, start as int, p.slots())
            implies out@.contains(p) by {
            let sq = piece_slot(p.slots(), layout.runs_spec()[g as int].end as int, k as int, chosen@.len() as int);
            reveal(choose_target);
            assert(listed_from(squares@, start as int, sq));
            assert(listed_in(squares@, start as int, i as int, sq));
        }
    }
}

/// Places run `g` from the `k` chosen squares (after `len - k` captured markers) and emits the
/// completions.
fn enum_place(
    g: usize,
    squares: &Vec<Square>,
    used: &mut Vec<bool>,
    layout: &PieceLayout,
    Ghost(allowed): Ghost<spec_fn(Coord) -> bool>,
    allow_captures: bool,
    cur: &mut [Square; MAX_PIECES],
    out: &mut Vec<Position>,
    k: usize,
    chosen: &mut Vec<usize>,
)
    requires
        enum_context(*layout, allowed, squares@, old(used)@),
        g < layout.runs_spec().len(),
        partial_ok(*layout, allowed, allow_captures, squares@, old(used)@, old(cur)@, g as int),
        k <= layout.runs_spec()[g as int].end - layout.runs_spec()[g as int].start,
        k < layout.runs_spec()[g as int].end - layout.runs_spec()[g as int].start ==> allow_captures,
        old(chosen)@.len() == k,
        chosen_ok(*layout, squares@, old(used)@, g as int, old(chosen)@, squares@.len() as int),
    ensures
        final(used)@ == old(used)@,
        final(chosen)@ == old(chosen)@,
        forall|i: int| 0 <= i < runs_prefix_end(*layout, g as int) ==> #[trigger] final(cur)@[i] == old(cur)@[i],
        forall|i: int| layout.kinds_spec().len() <= i < MAX_PIECES ==> #[trigger] final(cur)@[i] == none_square(),
        grows_with_ok(*layout, allowed, allow_captures, old(out)@, final(out)@),
        forall|p: Position| #[trigger] enumerated_in(*layout, allowed, allow_captures, p)
            && choose_target(*layout, squares@, old(cur)@, g as int, k as int, old(chosen)@, squares@.len() as int, p.slots())
            ==> final(out)@.contains(p),
        distinct_from(final(out)@, old(out)@.len() as int),
        forall|j: int| old(out)@.len() <= j < final(out)@.len()
            ==> choose_sound(*layout, squares@, old(cur)@, g as int, k as int, old(chosen)@, squares@.len() as int, #[trigger] final(out)@[j].slots()),
    decreases layout.runs_spec().len() - g, 0int, 0int,
{
    proof {
        lemma_context(*layout, allowed, squares@, used@);
        lemma_run_inside(*layout, g as int);
        reveal(chosen_ok);
    }
    let runs = layout.identical_runs();
    let run_start = runs[g].start;
    let run_end = runs[g].end;
    let len = run_end - run_start;
    let ghost used0 = used@;
    let ghost cur0 = cur@;
    proof {
        lemma_partial_tail(*layout, allowed, allow_captures, squares@, used@, cur@, g as int);
    }
    let none_count = len - k;
    let mut j: usize = 0;
    while j < none_count
        invariant
            j <= none_count,
            none_count == len - k,
            len == run_end - run_start,
            run_end <= MAX_PIECES,
            forall|i: int| 0 <= i < run_start ==> #[trigger] cur@[i] == cur0[i],
            forall|i: int| run_end <= i < MAX_PIECES ==> #[trigger] cur@[i] == cur0[i],
            forall|i: int| run_start <= i < run_start + j ==> #[trigger] cur@[i] == none_square(),
        decreases none_count - j,
    {
        cur[run_start + j] = Square::none();
        j += 1;
    }
    let mut o: usize = 0;
    while o < k
        invariant
            o <= k,
            k == chosen@.len(),
            none_count == len - k,
            len == run_end - run_start,
            run_end <= MAX_PIECES,
            chosen@ == old(chosen)@,
            forall|a: int| 0 <= a < chosen@.len() ==> #[trigger] chosen@[a] < squares@.len(),
            used@.len() == squares@.len(),
            forall|i: int| 0 <= i < run_start ==> #[trigger] cur@[i] == cur0[i],
            forall|i: int| run_end <= i < MAX_PIECES ==> #[trigger] cur@[i] == cur0[i],
            forall|i: int| run_start <= i < run_start + none_count ==> #[trigger] cur@[i] == none_square(),
            forall|a: int| 0 <= a < o ==> #[trigger] cur@[run_start + none_count + a] == squares@[chosen@[a] as int],
            forall|idx: int| 0 <= idx < used@.len() ==> #[trigger] used@[idx] == (used0[idx] || exists|a: int|
                0 <= a < o && chosen@[a] == idx),
        decreases k - o,
    {
        let idx = chosen[o];
        cur[run_start + none_count + o] = squares[idx];
        used.set(idx, true);
        proof {
            assert forall|ii: int| 0 <= ii < used@.len() implies #[trigger] used@[ii] == (used0[ii] || exists|a: int|
                0 <= a < o + 1 && chosen@[a] == ii) by {
                if ii == idx {
                    assert(chosen@[o as int] == ii);
                }
            }
        }
        o += 1;
    }
    proof {
        assert(run_placed(cur@, cur0, squares@, chosen@, run_start as int, run_end as int));
        lemma_placed_run_ok(*layout, allowed, allow_captures, squares@, used0, used@, cur0, cur@, g as int, chosen@);
        reveal(enum_context);
    }
    let ghost cur1 = cur@;
    let ghost out1 = out@;
    enum_rec(g + 1, squares, used, layout, Ghost(allowed), allow_captures, cur, out);
    proof {
        lemma_run_inside(*layout, g as int);
        lemma_context(*layout, allowed, squares@, used0);
        assert forall|j: int| old(out)@.len() <= j < out@.len()
            implies choose_sound(*layout, squares@, cur0, g as int, k as int, chosen@, squares@.len() as int, #[trigger] out@[j].slots()) by {
            crate::board::position::lemma_slots_len(out@[j]);
            lemma_place_sound(*layout, squares@, allowed, cur0, cur1, g as int, k as int, chosen@, out@[j].slots());
        }
        assert forall|p: Position| #[trigger] enumerated_in(*layout, allowed, allow_captures, p)
            && choose_target(*layout, squares@, cur0, g as int, k as int, chosen@, squares@.len() as int, p.slots())
            implies out@.contains(p) by {
            lemma_place_agrees(*layout, squares@, cur0, cur1, g as int, k as int, chosen@, squares@.len() as int, p.slots());
        }
        assert forall|i: int| 0 <= i < run_start implies #[trigger] cur@[i] == cur0[i] by {
            assert(cur@[i] == cur1[i]);
        }
        assert(runs_prefix_end(*layout, g as int) == run_start);
    }
    let mut u: usize = 0;
    while u < k
        invariant
            u <= k,
            k == chosen@.len(),
            chosen@ == old(chosen)@,
            forall|a: int| 0 <= a < chosen@.len() ==> #[trigger] chosen@[a] < squares@.len(),
            forall|a: int| 0 <= a < chosen@.len() ==> !used0[#[trigger] chosen@[a] as int],
            forall|a: int, b: int| 0 <= a < b < chosen@.len() ==> #[trigger] chosen@[a] < #[trigger] chosen@[b],
            used@.len() == squares@.len(),
            used0.len() == squares@.len(),
            forall|idx: int| 0 <= idx < used@.len() ==> #[trigger] used@[idx] == (used0[idx] || exists|a: int|
                u <= a < k && chosen@[a] == idx),
        decreases k - u,
    {
        let idx = chosen[u];
        used.set(idx, false);
        proof {
            assert forall|ii: int| 0 <= ii < used@.len() implies #[trigger] used@[ii] == (used0[ii] || exists|a: int|
                u + 1 <= a < k && chosen@[a] == ii) by {
                if ii == idx {
                    assert(!used0[ii]);
                    if exists|a: int| u + 1 <= a < k && chosen@[a] == ii {
                        let a = choose|a: int| u + 1 <= a < k && chosen@[a] == ii;
                        assert(chosen@[u as int] < chosen@[a]);
                    }
                } else {
                    if exists|a: int| u <= a < k && chosen@[a] == ii {
                        let a = choose|a: int| u <= a < k && chosen@[a] == ii;
                        assert(a != u);
                    }
                }
            }
        }
        u += 1;
    }
    proof {
        assert(used@ =~= used0);
    }
}

/// The chosen indices are increasing, before `start`, free, and allowed for the run's kind.
#[verifier::opaque]
pub open spec fn chosen_ok(layout: PieceLayout, squares: Seq<Square>, used: Seq<bool>, g: int, chosen: Seq<usize>, start: int) -> bool {
    &&& forall|a: int, b: int| 0 <= a < b < chosen.len() ==> #[trigger] chosen[a] < #[trigger] chosen[b]
    &&& forall|a: int| 0 <= a < chosen.len() ==> {
        let idx = #[trigger] chosen[a];
        &&& idx < start
        &&& idx < squares.len()
        &&& !used[idx as int]
        &&& (layout.kinds_spec()[layout.runs_spec()[g].start as int] == PieceKind::King
            ==> squares[idx as int].coord_spec().norm_spec() > 1)
    }
}

proof fn lemma_chosen_push(layout: PieceLayout, squares: Seq<Square>, used: Seq<bool>, g: int, chosen: Seq<usize>, start: int, i: int)
    requires
        0 <= start,
        chosen_ok(layout, squares, used, g, chosen, start),
        start <= i < squares.len(),
        i <= usize::MAX,
        used.len() == squares.len(),
        !used[i],
        layout.kinds_spec()[layout.runs_spec()[g].start as int] == PieceKind::King ==> squares[i].coord_spec().norm_spec() > 1,
    ensures
        chosen_ok(layout, squares, used, g, chosen.push(i as usize), i + 1),
{
    reveal(chosen_ok);
    let c2 = chosen.push(i as usize);
    let king = layout.kinds_spec()[layout.runs_spec()[g].start as int] == PieceKind::King;
    assert forall|a: int, b: int| 0 <= a < b < c2.len() implies #[trigger] c2[a] < #[trigger] c2[b] by {
        if b < chosen.len() {
            assert(c2[a] == chosen[a] && c2[b] == chosen[b]);
        } else {
            assert(c2[a] == chosen[a]);
        }
    }
    assert forall|a: int| 0 <= a < c2.len() implies (#[trigger] c2[a]) < i + 1 && c2[a] < squares.len()
        && !used[c2[a] as int] && (king ==> squares[c2[a] as int].coord_spec().norm_spec() > 1) by {
        if a < chosen.len() {
            assert(c2[a] == chosen[a]);
            let idx = chosen[a];
            assert(idx < start && idx < squares.len() && !used[idx as int]);
            if king {
                assert(squares[idx as int].coord_spec().norm_spec() > 1);
            }
        } else {
            assert(c2[a] == i as usize);
            if king {
                assert(squares[i].coord_spec().norm_spec() > 1);
            }
        }
    }
}

proof fn lemma_chosen_empty(layout: PieceLayout, squares: Seq<Square>, used: Seq<bool>, g: int, chosen: Seq<usize>)
    requires
        chosen.len() == 0,
    ensures
        chosen_ok(layout, squares, used, g, chosen, 0),
{
    reveal(chosen_ok);
}

/// The slots past the layout of a partial placement are captured.
proof fn lemma_partial_tail(
    layout: PieceLayout,
    allowed: spec_fn(Coord) -> bool,
    allow_captures: bool,
    squares: Seq<Square>,
    used: Seq<bool>,
    cur: Seq<Square>,
    g: int,
)
    requires
        partial_ok(layout, allowed, allow_captures, squares, used, cur, g),
    ensures
        cur.len() == MAX_PIECES,
        forall|i: int| layout.kinds_spec().len() <= i < MAX_PIECES ==> #[trigger] cur[i] == none_square(),
{
    reveal(partial_ok);
}

proof fn lemma_chosen_widen(layout: PieceLayout, squares: Seq<Square>, used: Seq<bool>, g: int, chosen: Seq<usize>, start: int)
    requires
        chosen_ok(layout, squares, used, g, chosen, start),
    ensures
        forall|s2: int| s2 >= start ==> chosen_ok(layout, squares, used, g, chosen, s2),
{
    reveal(chosen_ok);
}

/// Listed squares lie in the ball.
proof fn lemma_ball_elem(squares: Seq<Square>, allowed: spec_fn(Coord) -> bool, i: int)
    requires
        is_listing(squares, allowed),
        0 <= i < squares.len(),
    ensures
        allowed(squares[i].coord_spec()),
        squares[i] == Square::from_coord_spec(squares[i].coord_spec()),
        squares[i].coord_spec().abs_fits(),
{
    reveal(is_listing);
}

/// What the enumeration context provides.
proof fn lemma_context(layout: PieceLayout, allowed: spec_fn(Coord) -> bool, squares: Seq<Square>, used: Seq<bool>)
    requires
        enum_context(layout, allowed, squares, used),
    ensures
        layout.wf(),
        layout.kinds_spec().len() <= MAX_PIECES,
        is_listing(squares, allowed),
        used.len() == squares.len(),
{
    reveal(enum_context);
}

/// A run of a well-formed layout lies within its slots.
proof fn lemma_run_inside(layout: PieceLayout, g: int)
    requires
        layout.wf(),
        0 <= g < layout.runs_spec().len(),
    ensures
        layout.runs_spec()[g].start < layout.runs_spec()[g].end <= layout.kinds_spec().len(),
        runs_prefix_end(layout, g + 1) == layout.runs_spec()[g].end,
        runs_prefix_end(layout, g) == layout.runs_spec()[g].start,
{
    let runs = layout.runs_spec();
    if g < runs.len() - 1 {
        assert(runs[g].end <= runs[runs.len() - 1].start);
        assert(runs[g].end == runs[g + 1].start);
    }
}

/// `new` extends `old` with enumerated placements only: reflexivity.
proof fn lemma_grows_refl(layout: PieceLayout, allowed: spec_fn(Coord) -> bool, allow_captures: bool, a: Seq<Position>)
    ensures
        grows_with_ok(layout, allowed, allow_captures, a, a),
{
    reveal(grows_with_ok);
}

proof fn lemma_grows_trans(layout: PieceLayout, allowed: spec_fn(Coord) -> bool, allow_captures: bool, a: Seq<Position>, b: Seq<Position>, c: Seq<Position>)
    requires
        grows_with_ok(layout, allowed, allow_captures, a, b),
        grows_with_ok(layout, allowed, allow_captures, b, c),
    ensures
        grows_with_ok(layout, allowed, allow_captures, a, c),
{
    reveal(grows_with_ok);
    assert forall|j: int| 0 <= j < a.len() implies #[trigger] c[j] == a[j] by {
        assert(c[j] == b[j]);
    }
}

proof fn lemma_grows_push(layout: PieceLayout, allowed: spec_fn(Coord) -> bool, allow_captures: bool, a: Seq<Position>, p: Position)
    requires
        enumerated_in(layout, allowed, allow_captures, p),
    ensures
        grows_with_ok(layout, allowed, allow_captures, a, a.push(p)),
{
    reveal(grows_with_ok);
}

/// Changing only the slots at or past the end of the placed runs keeps a partial placement
/// valid, provided the slots past the layout stay captured.
#[verifier::rlimit(60)]
proof fn lemma_partial_frame(
    layout: PieceLayout,
    allowed: spec_fn(Coord) -> bool,
    allow_captures: bool,
    squares: Seq<Square>,
    used: Seq<bool>,
    cur0: Seq<Square>,
    cur1: Seq<Square>,
    g: int,
)
    requires
        layout.wf(),
        layout.kinds_spec().len() <= MAX_PIECES,
        0 <= g <= layout.runs_spec().len(),
        partial_ok(layout, allowed, allow_captures, squares, used, cur0, g),
        cur1.len() == MAX_PIECES,
        forall|i: int| 0 <= i < runs_prefix_end(layout, g) ==> #[trigger] cur1[i] == cur0[i],
        forall|i: int| layout.kinds_spec().len() <= i < MAX_PIECES ==> #[trigger] cur1[i] == none_square(),
    ensures
        partial_ok(layout, allowed, allow_captures, squares, used, cur1, g),
{
    reveal(partial_ok);
    let runs = layout.runs_spec();
    let pre = runs_prefix_end(layout, g);
    crate::board::position::lemma_layout_runs_ordered(layout, layout.kinds_spec().len() as int);
    assert forall|q: int| 0 <= q < g implies vstd::relations::sorted_by(
        #[trigger] cur1.subrange(runs[q].start as int, runs[q].end as int),
        square_leq(),
    ) by {
        if g < runs.len() {
            assert(runs[q].end <= runs[g].start);
        }
        assert(runs[q].end <= pre);
        let a = cur1.subrange(runs[q].start as int, runs[q].end as int);
        let b = cur0.subrange(runs[q].start as int, runs[q].end as int);
        assert forall|t: int| 0 <= t < a.len() implies a[t] == b[t] by {
            assert(0 <= runs[q].start + t < pre);
            assert(cur1[runs[q].start + t] == cur0[runs[q].start + t]);
        }
        assert(a =~= b);
        assert(runs_sorted(cur0, runs, g as nat));
    }
    assert forall|i: int, j: int| 0 <= i < j < pre && present(cur1[i]) && present(cur1[j]) implies #[trigger] cur1[i] != #[trigger] cur1[j] by {
        assert(cur1[i] == cur0[i] && cur1[j] == cur0[j]);
    }
    assert forall|i: int| 0 <= i < pre implies slot_ok(layout.kinds_spec()[i], #[trigger] cur1[i], allowed, allow_captures) by {
        assert(cur1[i] == cur0[i]);
    }
    assert forall|i: int| 0 <= i < pre && present(cur1[i]) implies exists|idx: int|
        0 <= idx < squares.len() && used[idx] && #[trigger] squares[idx] == cur1[i] by {
        assert(cur1[i] == cur0[i]);
    }
    assert forall|idx: int| 0 <= idx < used.len() && #[trigger] used[idx] implies exists|i: int|
        0 <= i < pre && present(cur1[i]) && cur1[i] == squares[idx] by {
        let i = choose|i: int| 0 <= i < pre && present(cur0[i]) && cur0[i] == squares[idx];
        assert(cur1[i] == cur0[i]);
    }
}

/// A complete partial placement has all runs sorted.
proof fn lemma_partial_sorted(
    layout: PieceLayout,
    allowed: spec_fn(Coord) -> bool,
    allow_captures: bool,
    squares: Seq<Square>,
    used: Seq<bool>,
    cur: Seq<Square>,
)
    requires
        partial_ok(layout, allowed, allow_captures, squares, used, cur, layout.runs_spec().len() as int),
    ensures
        runs_sorted(cur, layout.runs_spec(), layout.runs_spec().len()),
{
    reveal(partial_ok);
}

/// A complete partial placement, once stored, is an enumerated placement.
proof fn lemma_complete_ok(
    layout: PieceLayout,
    allowed: spec_fn(Coord) -> bool,
    allow_captures: bool,
    squares: Seq<Square>,
    used: Seq<bool>,
    cur: Seq<Square>,
    pos: Position,
)
    requires
        layout.wf(),
        partial_ok(layout, allowed, allow_captures, squares, used, cur, layout.runs_spec().len() as int),
        pos.slots() == cur,
        pos.len_spec() == layout.kinds_spec().len(),
        layout.kinds_spec().len() <= MAX_PIECES,
    ensures
        enumerated_in(layout, allowed, allow_captures, pos),
{
    reveal(partial_ok);
    reveal(enumerated_in);
    assert(runs_prefix_end(layout, layout.runs_spec().len() as int) == layout.kinds_spec().len());
    assert forall|i: int, j: int| 0 <= i < j < pos@.len() && present(pos@[i]) && present(pos@[j]) implies #[trigger] pos@[i] != #[trigger] pos@[j] by {
        assert(pos@[i] == cur[i] && pos@[j] == cur[j]);
    }
    assert forall|i: int| 0 <= i < pos@.len() implies slot_ok(layout.kinds_spec()[i], #[trigger] pos@[i], allowed, allow_captures) by {
        assert(pos@[i] == cur[i]);
    }
}

/// Placing `chosen` (after the right number of captured markers) as run `g` extends a valid
/// partial placement to a valid placement of the runs before `g + 1`.
/// The slots of run `rs..re`: `none_count` captured markers, then the chosen squares in order;
/// the other slots keep their values from `cur0`.
pub open spec fn run_placed(
    cur: Seq<Square>,
    cur0: Seq<Square>,
    squares: Seq<Square>,
    chosen: Seq<usize>,
    rs: int,
    re: int,
) -> bool {
    let none_count = re - rs - chosen.len();
    &&& 0 <= none_count
    &&& cur.len() == MAX_PIECES
    &&& cur0.len() == MAX_PIECES
    &&& 0 <= rs <= re <= MAX_PIECES
    &&& forall|i: int| 0 <= i < rs ==> #[trigger] cur[i] == cur0[i]
    &&& forall|i: int| re <= i < MAX_PIECES ==> #[trigger] cur[i] == cur0[i]
    &&& forall|i: int| rs <= i < rs + none_count ==> #[trigger] cur[i] == none_square()
    &&& forall|a: int| 0 <= a < chosen.len() ==> #[trigger] cur[rs + none_count + a] == squares[chosen[a] as int]
}

/// Each slot of a placed run is a captured marker or a chosen square.
proof fn lemma_run_value(cur: Seq<Square>, cur0: Seq<Square>, squares: Seq<Square>, chosen: Seq<usize>, rs: int, re: int, i: int)
    requires
        run_placed(cur, cur0, squares, chosen, rs, re),
        rs <= i < re,
    ensures
        i < re - chosen.len() ==> cur[i] == none_square(),
        i >= re - chosen.len() ==> cur[i] == squares[chosen[i - (re - chosen.len())] as int],
{
    let none_count = re - rs - chosen.len();
    if i >= rs + none_count {
        assert(cur[rs + none_count + (i - rs - none_count)] == squares[chosen[i - rs - none_count] as int]);
    }
}

/// The squares of a placed run are increasing, hence distinct and sorted.
proof fn lemma_run_increasing(cur: Seq<Square>, cur0: Seq<Square>, squares: Seq<Square>, chosen: Seq<usize>, rs: int, re: int, allowed: spec_fn(Coord) -> bool, i: int, j: int)
    requires
        run_placed(cur, cur0, squares, chosen, rs, re),
        is_listing(squares, allowed),
        forall|a: int, b: int| 0 <= a < b < chosen.len() ==> #[trigger] chosen[a] < #[trigger] chosen[b],
        forall|a: int| 0 <= a < chosen.len() ==> #[trigger] chosen[a] < squares.len(),
        re - chosen.len() <= i < j < re,
    ensures
        coord_lt(cur[i].coord_spec(), cur[j].coord_spec()),
        present(cur[i]) && present(cur[j]),
        cur[i].le_spec(cur[j]),
{
    reveal(is_listing);
    lemma_run_value(cur, cur0, squares, chosen, rs, re, i);
    lemma_run_value(cur, cur0, squares, chosen, rs, re, j);
    let nc = re - chosen.len();
    let ca = chosen[i - nc] as int;
    let cb = chosen[j - nc] as int;
    assert(ca < cb);
    assert(coord_lt(squares[ca].coord_spec(), squares[cb].coord_spec()));
    assert(allowed(squares[ca].coord_spec()) && allowed(squares[cb].coord_spec()));
    crate::board::square::lemma_from_coord_injective(squares[ca].coord_spec(), squares[ca].coord_spec());
    crate::board::square::lemma_from_coord_injective(squares[cb].coord_spec(), squares[cb].coord_spec());
    assert(squares[ca] == Square::from_coord_spec(squares[ca].coord_spec()));
    assert(squares[cb] == Square::from_coord_spec(squares[cb].coord_spec()));
}

/// Placing `chosen` (after the right number of captured markers) as run `g` extends a valid
/// partial placement to a valid placement of the runs before `g + 1`.
#[verifier::rlimit(40)]
proof fn lemma_placed_run_ok(
    layout: PieceLayout,
    allowed: spec_fn(Coord) -> bool,
    allow_captures: bool,
    squares: Seq<Square>,
    used0: Seq<bool>,
    used: Seq<bool>,
    cur0: Seq<Square>,
    cur: Seq<Square>,
    g: int,
    chosen: Seq<usize>,
)
    requires
        enum_context(layout, allowed, squares, used0),
        0 <= g < layout.runs_spec().len(),
        partial_ok(layout, allowed, allow_captures, squares, used0, cur0, g),
        run_placed(cur, cur0, squares, chosen, layout.runs_spec()[g].start as int, layout.runs_spec()[g].end as int),
        chosen.len() < layout.runs_spec()[g].end - layout.runs_spec()[g].start ==> allow_captures,
        layout.runs_spec()[g].end <= layout.kinds_spec().len(),
        used.len() == squares.len(),
        forall|idx: int| 0 <= idx < used.len() ==> #[trigger] used[idx] == (used0[idx] || exists|a: int|
            0 <= a < chosen.len() && chosen[a] == idx),
        forall|a: int, b: int| 0 <= a < b < chosen.len() ==> #[trigger] chosen[a] < #[trigger] chosen[b],
        forall|a: int| 0 <= a < chosen.len() ==> {
            let idx = #[trigger] chosen[a];
            &&& idx < squares.len()
            &&& !used0[idx as int]
            &&& (layout.kinds_spec()[layout.runs_spec()[g].start as int] == PieceKind::King
                ==> squares[idx as int].coord_spec().norm_spec() > 1)
        },
    ensures
        partial_ok(layout, allowed, allow_captures, squares, used, cur, g + 1),
{
    lemma_context(layout, allowed, squares, used0);
    lemma_run_inside(layout, g);
    lemma_placed_slots(layout, allowed, allow_captures, squares, used0, cur0, cur, g, chosen);
    lemma_placed_distinct(layout, allowed, allow_captures, squares, used0, cur0, cur, g, chosen);
    lemma_placed_sorted(layout, allowed, allow_captures, squares, used0, cur0, cur, g, chosen);
    lemma_placed_used(layout, allowed, allow_captures, squares, used0, used, cur0, cur, g, chosen);
    reveal(partial_ok);
    let runs = layout.runs_spec();
    assert forall|i: int| layout.kinds_spec().len() <= i < MAX_PIECES implies #[trigger] cur[i] == none_square() by {
        assert(cur[i] == cur0[i]);
    }
}

proof fn lemma_placed_slots(
    layout: PieceLayout,
    allowed: spec_fn(Coord) -> bool,
    allow_captures: bool,
    squares: Seq<Square>,
    used0: Seq<bool>,
    cur0: Seq<Square>,
    cur: Seq<Square>,
    g: int,
    chosen: Seq<usize>,
)
    requires
        layout.wf(),
        is_listing(squares, allowed),
        0 <= g < layout.runs_spec().len(),
        partial_ok(layout, allowed, allow_captures, squares, used0, cur0, g),
        run_placed(cur, cur0, squares, chosen, layout.runs_spec()[g].start as int, layout.runs_spec()[g].end as int),
        chosen.len() < layout.runs_spec()[g].end - layout.runs_spec()[g].start ==> allow_captures,
        layout.runs_spec()[g].end <= layout.kinds_spec().len(),
        forall|a: int| 0 <= a < chosen.len() ==> {
            let idx = #[trigger] chosen[a];
            &&& idx < squares.len()
            &&& (layout.kinds_spec()[layout.runs_spec()[g].start as int] == PieceKind::King
                ==> squares[idx as int].coord_spec().norm_spec() > 1)
        },
    ensures
        forall|i: int| 0 <= i < layout.runs_spec()[g].end ==> slot_ok(layout.kinds_spec()[i], #[trigger] cur[i], allowed, allow_captures),
{
    reveal(partial_ok);
    reveal(is_listing);
    lemma_run_inside(layout, g);
    let runs = layout.runs_spec();
    let kinds = layout.kinds_spec();
    let r = runs[g];
    assert forall|i: int| 0 <= i < r.end implies slot_ok(kinds[i], #[trigger] cur[i], allowed, allow_captures) by {
        if i < r.start {
            assert(cur[i] == cur0[i]);
            assert(runs_prefix_end(layout, g) == r.start);
        } else {
            assert(kinds[i] == kinds[r.start as int]);
            lemma_run_value(cur, cur0, squares, chosen, r.start as int, r.end as int, i);
            if i >= r.end - chosen.len() {
                let a = i - (r.end - chosen.len());
                let idx = chosen[a] as int;
                assert(idx < squares.len());
                assert(allowed(squares[idx].coord_spec()));
                assert(squares[idx] == Square::from_coord_spec(squares[idx].coord_spec()));
                crate::board::square::lemma_from_coord_injective(squares[idx].coord_spec(), squares[idx].coord_spec());
                assert(!cur[i].is_none_spec());
            } else {
                assert(chosen.len() < r.end - r.start);
            }
        }
    }
}

proof fn lemma_placed_distinct(
    layout: PieceLayout,
    allowed: spec_fn(Coord) -> bool,
    allow_captures: bool,
    squares: Seq<Square>,
    used0: Seq<bool>,
    cur0: Seq<Square>,
    cur: Seq<Square>,
    g: int,
    chosen: Seq<usize>,
)
    requires
        layout.wf(),
        is_listing(squares, allowed),
        used0.len() == squares.len(),
        0 <= g < layout.runs_spec().len(),
        partial_ok(layout, allowed, allow_captures, squares, used0, cur0, g),
        run_placed(cur, cur0, squares, chosen, layout.runs_spec()[g].start as int, layout.runs_spec()[g].end as int),
        forall|a: int, b: int| 0 <= a < b < chosen.len() ==> #[trigger] chosen[a] < #[trigger] chosen[b],
        forall|a: int| 0 <= a < chosen.len() ==> #[trigger] chosen[a] < squares.len() && !used0[chosen[a] as int],
    ensures
        forall|i: int, j: int| 0 <= i < j < layout.runs_spec()[g].end && present(cur[i]) && present(cur[j]) ==> #[trigger] cur[i] != #[trigger] cur[j],
{
    reveal(partial_ok);
    lemma_run_inside(layout, g);
    let runs = layout.runs_spec();
    let r = runs[g];
    let nc = r.end - chosen.len();
    assert forall|i: int, j: int| 0 <= i < j < r.end && present(cur[i]) && present(cur[j]) implies #[trigger] cur[i] != #[trigger] cur[j] by {
        if j < r.start {
            assert(cur[i] == cur0[i] && cur[j] == cur0[j]);
        } else if i < r.start {
            assert(cur[i] == cur0[i]);
            lemma_run_value(cur, cur0, squares, chosen, r.start as int, r.end as int, j);
            if j >= nc {
                let jdx = chosen[j - nc] as int;
                let idx = choose|idx: int| 0 <= idx < squares.len() && used0[idx] && #[trigger] squares[idx] == cur0[i];
                if cur[i] == cur[j] {
                    reveal(is_listing);
                    if idx < jdx {
                        assert(coord_lt(squares[idx].coord_spec(), squares[jdx].coord_spec()));
                    } else if jdx < idx {
                        assert(coord_lt(squares[jdx].coord_spec(), squares[idx].coord_spec()));
                    }
                    assert(false);
                }
            }
        } else {
            lemma_run_value(cur, cur0, squares, chosen, r.start as int, r.end as int, i);
            if i >= nc {
                lemma_run_increasing(cur, cur0, squares, chosen, r.start as int, r.end as int, allowed, i, j);
            }
        }
    }
}

#[verifier::rlimit(60)]
proof fn lemma_placed_sorted(
    layout: PieceLayout,
    allowed: spec_fn(Coord) -> bool,
    allow_captures: bool,
    squares: Seq<Square>,
    used0: Seq<bool>,
    cur0: Seq<Square>,
    cur: Seq<Square>,
    g: int,
    chosen: Seq<usize>,
)
    requires
        layout.wf(),
        is_listing(squares, allowed),
        0 <= g < layout.runs_spec().len(),
        partial_ok(layout, allowed, allow_captures, squares, used0, cur0, g),
        run_placed(cur, cur0, squares, chosen, layout.runs_spec()[g].start as int, layout.runs_spec()[g].end as int),
        forall|a: int, b: int| 0 <= a < b < chosen.len() ==> #[trigger] chosen[a] < #[trigger] chosen[b],
        forall|a: int| 0 <= a < chosen.len() ==> #[trigger] chosen[a] < squares.len(),
    ensures
        runs_sorted(cur, layout.runs_spec(), (g + 1) as nat),
{
    reveal(partial_ok);
    lemma_run_inside(layout, g);
    let runs = layout.runs_spec();
    let r = runs[g];
    let nc = r.end - chosen.len();
    assert forall|q: int| 0 <= q < g + 1 implies vstd::relations::sorted_by(
        #[trigger] cur.subrange(runs[q].start as int, runs[q].end as int),
        square_leq(),
    ) by {
        if q < g {
            assert(runs[q].end <= runs[g].start);
            assert(runs[q].start < runs[q].end);
            let a = cur.subrange(runs[q].start as int, runs[q].end as int);
            let b = cur0.subrange(runs[q].start as int, runs[q].end as int);
            assert forall|t: int| 0 <= t < a.len() implies a[t] == b[t] by {
                assert(cur[runs[q].start + t] == cur0[runs[q].start + t]);
            }
            assert(a =~= b);
        } else {
            let seg = cur.subrange(r.start as int, r.end as int);
            assert forall|a: int, b: int| 0 <= a < b < seg.len() implies #[trigger] square_leq()(seg[a], seg[b]) by {
                let ia = r.start + a;
                let ib = r.start + b;
                assert(seg[a] == cur[ia] && seg[b] == cur[ib]);
                lemma_run_value(cur, cur0, squares, chosen, r.start as int, r.end as int, ia);
                lemma_run_value(cur, cur0, squares, chosen, r.start as int, r.end as int, ib);
                if ia >= nc {
                    lemma_run_increasing(cur, cur0, squares, chosen, r.start as int, r.end as int, allowed, ia, ib);
                }
            }
        }
    }
}

proof fn lemma_placed_used(
    layout: PieceLayout,
    allowed: spec_fn(Coord) -> bool,
    allow_captures: bool,
    squares: Seq<Square>,
    used0: Seq<bool>,
    used: Seq<bool>,
    cur0: Seq<Square>,
    cur: Seq<Square>,
    g: int,
    chosen: Seq<usize>,
)
    requires
        layout.wf(),
        0 <= g < layout.runs_spec().len(),
        partial_ok(layout, allowed, allow_captures, squares, used0, cur0, g),
        run_placed(cur, cur0, squares, chosen, layout.runs_spec()[g].start as int, layout.runs_spec()[g].end as int),
        used.len() == squares.len(),
        forall|idx: int| 0 <= idx < used.len() ==> #[trigger] used[idx] == (used0[idx] || exists|a: int|
            0 <= a < chosen.len() && chosen[a] == idx),
        forall|a: int| 0 <= a < chosen.len() ==> #[trigger] chosen[a] < squares.len(),
        is_listing(squares, allowed),
        used0.len() == squares.len(),
    ensures
        forall|i: int| 0 <= i < layout.runs_spec()[g].end && present(cur[i]) ==> exists|idx: int|
            0 <= idx < squares.len() && used[idx] && #[trigger] squares[idx] == cur[i],
        forall|idx: int| 0 <= idx < used.len() && #[trigger] used[idx] ==> exists|i: int|
            0 <= i < layout.runs_spec()[g].end && present(cur[i]) && cur[i] == squares[idx],
{
    reveal(partial_ok);
    lemma_run_inside(layout, g);
    let r = layout.runs_spec()[g];
    let nc = r.end - chosen.len();
    assert forall|i: int| 0 <= i < r.end && present(cur[i]) implies exists|idx: int|
        0 <= idx < squares.len() && used[idx] && #[trigger] squares[idx] == cur[i] by {
        if i < r.start {
            assert(cur[i] == cur0[i]);
            let idx = choose|idx: int| 0 <= idx < squares.len() && used0[idx] && #[trigger] squares[idx] == cur0[i];
            assert(used[idx]);
        } else {
            lemma_run_value(cur, cur0, squares, chosen, r.start as int, r.end as int, i);
            let a = i - nc;
            let idx = chosen[a] as int;
            assert(used[idx]);
        }
    }
    assert forall|idx: int| 0 <= idx < used.len() && #[trigger] used[idx] implies exists|i: int|
        0 <= i < r.end && present(cur[i]) && cur[i] == squares[idx] by {
        if used0[idx] {
            let i = choose|i: int| 0 <= i < r.start && present(cur0[i]) && cur0[i] == squares[idx];
            assert(cur[i] == cur0[i]);
        } else {
            let a = choose|a: int| 0 <= a < chosen.len() && chosen[a] == idx;
            let i = r.start + (r.end - r.start - chosen.len()) + a;
            assert(cur[i] == squares[idx]);
            reveal(is_listing);
            crate::board::square::lemma_from_coord_injective(squares[idx].coord_spec(), squares[idx].coord_spec());
            assert(present(cur[i]));
        }
    }
}

/// Extending a sequence with enumerated placements keeps what it contained.
proof fn lemma_grows_contains(
    layout: PieceLayout,
    allowed: spec_fn(Coord) -> bool,
    allow_captures: bool,
    a: Seq<Position>,
    b: Seq<Position>,
    p: Position,
)
    requires
        grows_with_ok(layout, allowed, allow_captures, a, b),
        a.contains(p),
    ensures
        b.contains(p),
{
    reveal(grows_with_ok);
    let j = choose|j: int| 0 <= j < a.len() && a[j] == p;
    assert(b[j] == p);
}

/// Strictly increasing positions in a listing hold strictly increasing coordinates, and
/// conversely.
proof fn lemma_listing_index_order(squares: Seq<Square>, allowed: spec_fn(Coord) -> bool, i: int, j: int)
    requires
        is_listing(squares, allowed),
        0 <= i < squares.len(),
        0 <= j < squares.len(),
        coord_lt(squares[i].coord_spec(), squares[j].coord_spec()),
    ensures
        i < j,
{
    reveal(is_listing);
    if j < i {
        assert(coord_lt(squares[j].coord_spec(), squares[i].coord_spec()));
    }
}

/// A piece of an enumerated placement stands on a listed square.
proof fn lemma_slot_listed(
    layout: PieceLayout,
    allowed: spec_fn(Coord) -> bool,
    allow_captures: bool,
    squares: Seq<Square>,
    p: Position,
    i: int,
)
    requires
        enumerated_in(layout, allowed, allow_captures, p),
        is_listing(squares, allowed),
        layout.kinds_spec().len() <= MAX_PIECES,
        0 <= i < layout.kinds_spec().len(),
        present(p.slots()[i]),
    ensures
        exists|idx: int| 0 <= idx < squares.len() && squares[idx] == p.slots()[i],
{
    reveal(enumerated_in);
    reveal(is_listing);
    crate::board::position::lemma_slots_len(p);
    assert(p@[i] == p.slots()[i]);
    assert(slot_ok(layout.kinds_spec()[i], p@[i], allowed, allow_captures));
    let c = p.slots()[i].coord_spec();
    assert(allowed(c));
}

/// Within a run of an enumerated placement, the pieces come after the captured markers, in
/// strictly increasing coordinate order.
proof fn lemma_run_strict(
    layout: PieceLayout,
    allowed: spec_fn(Coord) -> bool,
    allow_captures: bool,
    p: Position,
    g: int,
    x: int,
    y: int,
)
    requires
        layout.wf(),
        layout.kinds_spec().len() <= MAX_PIECES,
        enumerated_in(layout, allowed, allow_captures, p),
        0 <= g < layout.runs_spec().len(),
        layout.runs_spec()[g].start <= x < y < layout.runs_spec()[g].end,
        present(p.slots()[x]),
    ensures
        present(p.slots()[y]),
        coord_lt(p.slots()[x].coord_spec(), p.slots()[y].coord_spec()),
{
    reveal(enumerated_in);
    crate::board::position::lemma_slots_len(p);
    let runs = layout.runs_spec();
    let rs = runs[g].start as int;
    let re = runs[g].end as int;
    lemma_run_inside(layout, g);
    let seg = p.slots().subrange(rs, re);
    assert(seg.len() == re - rs);
    assert(vstd::relations::sorted_by(seg, square_leq()));
    assert(seg[x - rs] == p.slots()[x] && seg[y - rs] == p.slots()[y]);
    assert(square_leq()(seg[x - rs], seg[y - rs]));
    assert(p.slots()[x].le_spec(p.slots()[y]));
    assert(p@[x] == p.slots()[x] && p@[y] == p.slots()[y]);
    assert(present(p.slots()[y]));
    assert(p@[x] != p@[y]);
    crate::board::square::lemma_square_coord_injective(p.slots()[x], p.slots()[y]);
}

/// Each run of an enumerated placement has the shape of captured markers followed by
/// pieces; with captures disallowed, it holds only pieces.
proof fn lemma_run_shape_exists(
    layout: PieceLayout,
    allowed: spec_fn(Coord) -> bool,
    allow_captures: bool,
    p: Position,
    g: int,
) -> (k: int)
    requires
        layout.wf(),
        layout.kinds_spec().len() <= MAX_PIECES,
        enumerated_in(layout, allowed, allow_captures, p),
        0 <= g < layout.runs_spec().len(),
    ensures
        run_shape(p.slots(), layout.runs_spec()[g].start as int, layout.runs_spec()[g].end as int, k),
        !allow_captures ==> k == layout.runs_spec()[g].end - layout.runs_spec()[g].start,
{
    lemma_run_inside(layout, g);
    crate::board::position::lemma_slots_len(p);
    let rs = layout.runs_spec()[g].start as int;
    let re = layout.runs_spec()[g].end as int;
    if !allow_captures {
        reveal(enumerated_in);
        assert forall|i: int| rs <= i < re implies (present(#[trigger] p.slots()[i]) <==> i >= re - (re - rs)) by {
            assert(p@[i] == p.slots()[i]);
            assert(slot_ok(layout.kinds_spec()[i], p@[i], allowed, allow_captures));
        }
        re - rs
    } else {
        lemma_leading_markers(layout, allowed, allow_captures, p, g, rs)
    }
}

proof fn lemma_leading_markers(
    layout: PieceLayout,
    allowed: spec_fn(Coord) -> bool,
    allow_captures: bool,
    p: Position,
    g: int,
    m: int,
) -> (k: int)
    requires
        layout.wf(),
        layout.kinds_spec().len() <= MAX_PIECES,
        enumerated_in(layout, allowed, allow_captures, p),
        0 <= g < layout.runs_spec().len(),
        layout.runs_spec()[g].start <= m <= layout.runs_spec()[g].end,
        forall|i: int| layout.runs_spec()[g].start <= i < m ==> !present(#[trigger] p.slots()[i]),
    ensures
        run_shape(p.slots(), layout.runs_spec()[g].start as int, layout.runs_spec()[g].end as int, k),
    decreases layout.runs_spec()[g].end - m,
{
    let rs = layout.runs_spec()[g].start as int;
    let re = layout.runs_spec()[g].end as int;
    if m == re {
        0
    } else if present(p.slots()[m]) {
        assert forall|i: int| rs <= i < re implies (present(#[trigger] p.slots()[i]) <==> i >= re - (re - m)) by {
            if i > m {
                lemma_run_strict(layout, allowed, allow_captures, p, g, m, i);
            }
        }
        re - m
    } else {
        lemma_leading_markers(layout, allowed, allow_captures, p, g, m + 1)
    }
}

/// A complete placement that agrees with an enumerated one on all its slots is that one.
proof fn lemma_complete_is(
    layout: PieceLayout,
    allowed: spec_fn(Coord) -> bool,
    allow_captures: bool,
    squares: Seq<Square>,
    used: Seq<bool>,
    cur: Seq<Square>,
    pos: Position,
    p: Position,
)
    requires
        layout.wf(),
        layout.kinds_spec().len() <= MAX_PIECES,
        partial_ok(layout, allowed, allow_captures, squares, used, cur, layout.runs_spec().len() as int),
        pos.slots() == cur,
        pos.len_spec() == layout.kinds_spec().len(),
        enumerated_in(layout, allowed, allow_captures, p),
        agrees_on(p.slots(), cur, runs_prefix_end(layout, layout.runs_spec().len() as int)),
    ensures
        p == pos,
{
    reveal(enumerated_in);
    reveal(partial_ok);
    crate::board::position::lemma_slots_len(p);
    crate::board::position::lemma_slots_len(pos);
    let n = layout.kinds_spec().len() as int;
    assert(runs_prefix_end(layout, layout.runs_spec().len() as int) == n);
    assert forall|i: int| 0 <= i < MAX_PIECES implies #[trigger] p.slots()[i] == cur[i] by {
        if i >= n {
            assert(p.slots()[i] == none_square());
            assert(cur[i] == none_square());
        }
    }
    assert(p.slots() =~= cur);
    crate::board::position::lemma_position_eq(p, pos);
}

/// A placement whose run `g` holds `k` pieces, agreeing before the run, is in reach of the
/// choice of `k` squares from the start of the listing.
proof fn lemma_target_start(
    layout: PieceLayout,
    allowed: spec_fn(Coord) -> bool,
    allow_captures: bool,
    squares: Seq<Square>,
    cur0: Seq<Square>,
    cur_b: Seq<Square>,
    g: int,
    k: int,
    p: Position,
)
    requires
        layout.wf(),
        layout.kinds_spec().len() <= MAX_PIECES,
        is_listing(squares, allowed),
        0 <= g < layout.runs_spec().len(),
        enumerated_in(layout, allowed, allow_captures, p),
        agrees_on(p.slots(), cur0, layout.runs_spec()[g].start as int),
        agrees_on(cur_b, cur0, layout.runs_spec()[g].start as int),
        run_shape(p.slots(), layout.runs_spec()[g].start as int, layout.runs_spec()[g].end as int, k),
    ensures
        choose_target(layout, squares, cur_b, g, k, Seq::<usize>::empty(), 0, p.slots()),
{
    reveal(choose_target);
    let rs = layout.runs_spec()[g].start as int;
    let re = layout.runs_spec()[g].end as int;
    let ps = p.slots();
    lemma_run_inside(layout, g);
    assert forall|j: int| 0 <= j < rs implies #[trigger] ps[j] == cur_b[j] by {
        assert(ps[j] == cur0[j] && cur_b[j] == cur0[j]);
    }
    assert forall|a: int| 0 <= a < k implies listed_from(squares, 0, #[trigger] piece_slot(ps, re, k, a)) by {
        assert(present(ps[re - k + a]));
        lemma_slot_listed(layout, allowed, allow_captures, squares, p, re - k + a);
    }
}

/// Choosing square `i` for the next piece of run `g` keeps a placement in reach when that
/// piece stands on `i`; the reach may also move to a slot array that agrees before the run.
proof fn lemma_choose_step(
    layout: PieceLayout,
    allowed: spec_fn(Coord) -> bool,
    allow_captures: bool,
    squares: Seq<Square>,
    cur: Seq<Square>,
    cur2: Seq<Square>,
    g: int,
    k: int,
    chosen: Seq<usize>,
    start: int,
    i: int,
    p: Position,
)
    requires
        layout.wf(),
        layout.kinds_spec().len() <= MAX_PIECES,
        is_listing(squares, allowed),
        0 <= g < layout.runs_spec().len(),
        enumerated_in(layout, allowed, allow_captures, p),
        choose_target(layout, squares, cur, g, k, chosen, start, p.slots()),
        agrees_on(cur2, cur, layout.runs_spec()[g].start as int),
        chosen.len() < k,
        0 <= start,
        0 <= i < squares.len(),
        i <= usize::MAX,
        squares[i] == piece_slot(p.slots(), layout.runs_spec()[g].end as int, k, chosen.len() as int),
    ensures
        choose_target(layout, squares, cur2, g, k, chosen.push(i as usize), i + 1, p.slots()),
{
    reveal(choose_target);
    let rs = layout.runs_spec()[g].start as int;
    let re = layout.runs_spec()[g].end as int;
    let ps = p.slots();
    let c = chosen.len() as int;
    let ch2 = chosen.push(i as usize);
    lemma_run_inside(layout, g);
    assert forall|a: int| 0 <= a < ch2.len() implies #[trigger] piece_slot(ps, re, k, a) == squares[ch2[a] as int] by {
        if a < c {
            assert(ch2[a] == chosen[a]);
        }
    }
    assert forall|a: int| ch2.len() <= a < k implies listed_from(squares, i + 1, #[trigger] piece_slot(ps, re, k, a)) by {
        assert(listed_from(squares, start, piece_slot(ps, re, k, a)));
        let idx = choose|idx: int| start <= idx < squares.len() && squares[idx] == piece_slot(ps, re, k, a);
        lemma_later_index(layout, allowed, allow_captures, squares, p, g, k, c, a, i, idx);
        assert(i + 1 <= idx < squares.len() && squares[idx] == piece_slot(ps, re, k, a));
    }
    assert(agrees_on(ps, cur2, rs)) by {
        assert forall|j: int| 0 <= j < rs implies #[trigger] ps[j] == cur2[j] by {
            assert(ps[j] == cur[j]);
            assert(cur2[j] == cur[j]);
        }
    }
}

/// The squares of the later pieces of a run come later in the listing.
proof fn lemma_later_index(
    layout: PieceLayout,
    allowed: spec_fn(Coord) -> bool,
    allow_captures: bool,
    squares: Seq<Square>,
    p: Position,
    g: int,
    k: int,
    c: int,
    a: int,
    i: int,
    idx: int,
)
    requires
        layout.wf(),
        layout.kinds_spec().len() <= MAX_PIECES,
        is_listing(squares, allowed),
        0 <= g < layout.runs_spec().len(),
        enumerated_in(layout, allowed, allow_captures, p),
        run_shape(p.slots(), layout.runs_spec()[g].start as int, layout.runs_spec()[g].end as int, k),
        0 <= c < a < k,
        0 <= i < squares.len(),
        0 <= idx < squares.len(),
        squares[i] == piece_slot(p.slots(), layout.runs_spec()[g].end as int, k, c),
        squares[idx] == piece_slot(p.slots(), layout.runs_spec()[g].end as int, k, a),
    ensures
        i < idx,
{
    let re = layout.runs_spec()[g].end as int;
    assert(present(p.slots()[re - k + c]));
    lemma_run_strict(layout, allowed, allow_captures, p, g, re - k + c, re - k + a);
    lemma_listing_index_order(squares, allowed, i, idx);
}

/// A square already used before run `g`, or one next to the black king for the white king,
/// holds no piece of run `g` of a placement in reach.
proof fn lemma_choose_blocked(
    layout: PieceLayout,
    allowed: spec_fn(Coord) -> bool,
    allow_captures: bool,
    squares: Seq<Square>,
    used: Seq<bool>,
    cur: Seq<Square>,
    cur0: Seq<Square>,
    g: int,
    k: int,
    chosen: Seq<usize>,
    start: int,
    i: int,
    p: Position,
)
    requires
        layout.wf(),
        layout.kinds_spec().len() <= MAX_PIECES,
        0 <= g < layout.runs_spec().len(),
        enumerated_in(layout, allowed, allow_captures, p),
        choose_target(layout, squares, cur0, g, k, chosen, start, p.slots()),
        partial_ok(layout, allowed, allow_captures, squares, used, cur, g),
        agrees_on(cur, cur0, layout.runs_spec()[g].start as int),
        used.len() == squares.len(),
        chosen.len() < k,
        0 <= i < squares.len(),
        squares[i] == piece_slot(p.slots(), layout.runs_spec()[g].end as int, k, chosen.len() as int),
    ensures
        !used[i],
        layout.kinds_spec()[layout.runs_spec()[g].start as int] == PieceKind::King ==> squares[i].coord_spec().norm_spec() > 1,
{
    reveal(choose_target);
    let rs = layout.runs_spec()[g].start as int;
    let re = layout.runs_spec()[g].end as int;
    let ps = p.slots();
    let x = re - k + chosen.len();
    lemma_run_inside(layout, g);
    crate::board::position::lemma_slots_len(p);
    reveal(enumerated_in);
    reveal(partial_ok);
    assert(present(ps[x]));
    assert(p@[x] == ps[x]);
    if used[i] {
        let j = choose|j: int| 0 <= j < rs && present(cur[j]) && cur[j] == squares[i];
        assert(cur[j] == cur0[j] && ps[j] == cur0[j]);
        assert(p@[j] == ps[j]);
        assert(p@[j] != p@[x]);
    }
    assert(layout.kinds_spec()[x] == layout.kinds_spec()[rs]);
    assert(slot_ok(layout.kinds_spec()[x], p@[x], allowed, allow_captures));
}

/// Placing the chosen squares as run `g` makes the slot array agree, through the end of the
/// run, with every placement in reach whose pieces of the run stand on them.
proof fn lemma_place_agrees(
    layout: PieceLayout,
    squares: Seq<Square>,
    cur0: Seq<Square>,
    cur1: Seq<Square>,
    g: int,
    k: int,
    chosen: Seq<usize>,
    start: int,
    s: Seq<Square>,
)
    requires
        0 <= g < layout.runs_spec().len(),
        choose_target(layout, squares, cur0, g, k, chosen, start, s),
        chosen.len() == k,
        run_placed(cur1, cur0, squares, chosen, layout.runs_spec()[g].start as int, layout.runs_spec()[g].end as int),
    ensures
        agrees_on(s, cur1, layout.runs_spec()[g].end as int),
{
    reveal(choose_target);
    let rs = layout.runs_spec()[g].start as int;
    let re = layout.runs_spec()[g].end as int;
    assert forall|i: int| 0 <= i < re implies #[trigger] s[i] == cur1[i] by {
        if i < rs {
            assert(cur1[i] == cur0[i]);
        } else if i < re - k {
            assert(!present(s[i]));
            assert(cur1[i] == none_square());
        } else {
            let a = i - (re - k);
            assert(piece_slot(s, re, k, a) == squares[chosen[a] as int]);
            assert(cur1[rs + (re - rs - chosen.len()) + a] == squares[chosen[a] as int]);
        }
    }
}

/// Enumerates all canonical placements of the layout whose pieces that are not captured stand
/// on distinct squares of the listing `squares` (of the coordinates accepted by `allowed`),
/// with the white king (if present) at distance more than one from the black king. Captured
/// pieces appear only when `allow_captures` is set.
pub fn enumerate_placements(
    layout: &PieceLayout,
    squares: &Vec<Square>,
    Ghost(allowed): Ghost<spec_fn(Coord) -> bool>,
    allow_captures: bool,
) -> (out: Vec<Position>)
    requires
        layout.kinds_spec().len() <= MAX_PIECES,
        is_listing(squares@, allowed),
    ensures
        forall|j: int| 0 <= j < out@.len() ==> enumerated_in(*layout, allowed, allow_captures, #[trigger] out@[j]),
        forall|p: Position| #[trigger] enumerated_in(*layout, allowed, allow_captures, p) ==> out@.contains(p),
        out@.no_duplicates(),
{
    proof {
        use_type_invariant(layout);
    }
    let mut used: Vec<bool> = Vec::new();
    let mut t: usize = 0;
    while t < squares.len()
        invariant
            t <= squares@.len(),
            used@.len() == t,
            forall|i: int| 0 <= i < t ==> !#[trigger] used@[i],
        decreases squares@.len() - t,
    {
        used.push(false);
        t += 1;
    }
    let mut cur = [Square::none(); MAX_PIECES];
    let mut out: Vec<Position> = Vec::new();
    proof {
        assert(runs_prefix_end(*layout, 0) == 0) by {
            if layout.runs_spec().len() == 0 {
                assert(layout.kinds_spec().len() == 0);
            }
        }
        reveal(partial_ok);
        reveal(enum_context);
        assert(cur@.len() == MAX_PIECES);
        assert(partial_ok(*layout, allowed, allow_captures, squares@, used@, cur@, 0));
    }
    enum_rec(0, squares, &mut used, layout, Ghost(allowed), allow_captures, &mut cur, &mut out);
    proof {
        reveal(grows_with_ok);
        assert forall|p: Position| #[trigger] enumerated_in(*layout, allowed, allow_captures, p) implies out@.contains(p) by {
            assert(agrees_on(p.slots(), cur@, runs_prefix_end(*layout, 0)));
        }
        assert forall|i: int, j: int| 0 <= i < out@.len() && 0 <= j < out@.len() && i != j implies out@[i] != out@[j] by {
            if i < j {
                assert(out@[i] != out@[j]);
            } else {
                assert(out@[j] != out@[i]);
            }
        }
    }
    out
}

/// Enumerates all canonical placements of the layout in which every piece that is not captured
/// lies within `|x|, |y| <= bound`, on distinct squares other than the black king's, with the
/// white king (if present) not next to the black king. Captured pieces appear only when
/// `allow_captures` is set.
pub fn enumerate_positions_in_bound(layout: &PieceLayout, bound: i32, allow_captures: bool) -> (out: Vec<Position>)
    requires
        layout.kinds_spec().len() <= MAX_PIECES,
    ensures
        forall|j: int| 0 <= j < out@.len() ==> enumerated_ok(*layout, bound as int, allow_captures, #[trigger] out@[j]),
        forall|p: Position| #[trigger] enumerated_ok(*layout, bound as int, allow_captures, p) ==> out@.contains(p),
        out@.no_duplicates(),
{
    let squares = squares_in_linf_ball(bound);
    enumerate_placements(layout, &squares, Ghost(ball(bound as int)), allow_captures)
}

} // verus!
