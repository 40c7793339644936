//! The board display and move logic of the interactive solution player.
use vstd::prelude::*;

use crate::board::coord::Coord;
use crate::board::position::Position;
use crate::board::square::Square;
use crate::chess::layout::PieceLayout;
use crate::chess::piece::PieceKind;
use crate::chess::rules::{coord_limit, present, squares_within_limit, within_limit};
use crate::search::buchi::strictly_increasing;
use crate::search::store::id_map_contents;
use crate::solution::{delta_from_dir_index, dir_delta_spec, dir_key_spec, LoadedSolution, ViewMode};

verus! {

/// The largest width or height of the absolute view before it is cropped.
pub const MAX_ABS_DIM: i32 = 81;

/// The direction indices whose transition exists, in increasing order.
pub fn legal_dirs(next: &[u32; 8]) -> (r: Vec<usize>)
    ensures
        strictly_increasing(r@),
        forall|i: usize| #[trigger] r@.contains(i) <==> (i < 8 && next@[i as int] != u32::MAX),
{
    let mut out: Vec<usize> = Vec::new();
    let mut i: usize = 0;
    while i < 8
        invariant
            i <= 8,
            strictly_increasing(out@),
            forall|q: int| 0 <= q < out@.len() ==> #[trigger] out@[q] < i,
            forall|j: usize| #[trigger] out@.contains(j) <==> (j < i && next@[j as int] != u32::MAX),
        decreases 8 - i,
    {
        if next[i] != u32::MAX {
            let ghost before = out@;
            out.push(i);
            proof {
                assert forall|j: usize| #[trigger] out@.contains(j) <==> (j < i + 1 && next@[j as int] != u32::MAX) by {
                    if out@.contains(j) && j != i {
                        let q = choose|q: int| 0 <= q < out@.len() && out@[q] == j;
                        assert(before.contains(j)) by {
                            assert(before[q] == j);
                        }
                    }
                    if j < i && next@[j as int] != u32::MAX {
                        assert(before.contains(j));
                        let q = choose|q: int| 0 <= q < before.len() && before[q] == j;
                        assert(out@[q] == j);
                    }
                    if j == i {
                        assert(out@[out@.len() - 1] == j);
                    }
                }
            }
        }
        i += 1;
    }
    out
}

/// The key of a direction index (`?` past the last one).
pub fn dir_key(idx: usize) -> (c: char)
    ensures
        c == if idx < 8 { dir_key_spec(idx as int) } else { '?' },
{
    if idx == 0 { 'q' }
    else if idx == 1 { 'w' }
    else if idx == 2 { 'e' }
    else if idx == 3 { 'a' }
    else if idx == 4 { 'd' }
    else if idx == 5 { 'z' }
    else if idx == 6 { 'x' }
    else if idx == 7 { 'c' }
    else { '?' }
}

/// The board letter of a white piece.
pub open spec fn piece_char_spec(kind: PieceKind) -> char {
    match kind {
        PieceKind::King => 'K',
        PieceKind::Queen => 'Q',
        PieceKind::Rook => 'R',
        PieceKind::Bishop => 'B',
        PieceKind::Knight => 'N',
    }
}

/// The board letter of a white piece.
pub fn piece_char(kind: PieceKind) -> (c: char)
    ensures
        c == piece_char_spec(kind),
{
    match kind {
        PieceKind::King => 'K',
        PieceKind::Queen => 'Q',
        PieceKind::Rook => 'R',
        PieceKind::Bishop => 'B',
        PieceKind::Knight => 'N',
    }
}

/// Some piece of `pos` stands on the square of `c`.
pub open spec fn occupies(pos: Seq<Square>, c: Coord) -> bool {
    exists|i: int| 0 <= i < pos.len() && present(pos[i]) && #[trigger] pos[i] == Square::from_coord_spec(c)
}

/// Whether no piece stands on the king-relative square `delta`.
pub fn is_empty_destination(pos: &Position, delta: Coord) -> (b: bool)
    ensures
        b == !occupies(pos@, delta),
{
    let dst = Square::from_coord(delta);
    let sq = pos.squares();
    let mut i: usize = 0;
    while i < sq.len()
        invariant
            sq@ == pos@,
            dst == Square::from_coord_spec(delta),
            i <= sq@.len(),
            forall|j: int| 0 <= j < i ==> !(present(sq@[j]) && #[trigger] sq@[j] == dst),
        decreases sq@.len() - i,
    {
        if !sq[i].is_none() && sq[i] == dst {
            proof {
                assert(present(pos@[i as int]) && pos@[i as int] == Square::from_coord_spec(delta));
            }
            return false;
        }
        i += 1;
    }
    true
}

/// `a + b`, both components.
pub open spec fn shift(a: Coord, b: Coord) -> Coord {
    Coord { x: (a.x + b.x) as i32, y: (a.y + b.y) as i32 }
}

/// Where a king-relative square `rel` is drawn: as is in the relative view, shifted by the
/// king's absolute square in the absolute view.
pub open spec fn view_point(king: Coord, rel: Coord, mode: ViewMode) -> Coord {
    match mode {
        ViewMode::Relative => rel,
        ViewMode::Absolute => shift(king, rel),
    }
}

/// `c` is within half the coordinate limit, so that it can be shifted by a piece square.
pub open spec fn king_ok(c: Coord) -> bool {
    -coord_limit() / 2 <= c.x <= coord_limit() / 2 && -coord_limit() / 2 <= c.y <= coord_limit() / 2
}

fn view_point_exec(king: Coord, rel: Coord, mode: ViewMode) -> (c: Coord)
    requires
        king_ok(king),
        within_limit(rel),
    ensures
        c == view_point(king, rel, mode),
{
    match mode {
        ViewMode::Relative => rel,
        ViewMode::Absolute => Coord::new(king.x + rel.x, king.y + rel.y),
    }
}

/// The kinds of the pieces of the first `k` slots of `pos` that stand on `dst`.
pub open spec fn captures_at(kinds: Seq<PieceKind>, pos: Seq<Square>, dst: Square, k: nat) -> Seq<PieceKind>
    decreases k,
{
    if k == 0 {
        Seq::empty()
    } else {
        let prev = captures_at(kinds, pos, dst, (k - 1) as nat);
        if present(pos[k - 1]) && pos[k - 1] == dst {
            prev.push(kinds[k - 1])
        } else {
            prev
        }
    }
}

/// The captures offered by the first `m` legal directions: for each, the pieces on its
/// destination with where they are drawn.
pub open spec fn capture_seq(
    kinds: Seq<PieceKind>,
    pos: Seq<Square>,
    king: Coord,
    mode: ViewMode,
    dirs: Seq<usize>,
    m: nat,
) -> Seq<(PieceKind, Coord)>
    decreases m,
{
    if m == 0 {
        Seq::empty()
    } else {
        let prev = capture_seq(kinds, pos, king, mode, dirs, (m - 1) as nat);
        let delta = dir_delta_spec(dirs[m - 1] as int);
        let here = view_point(king, delta, mode);
        prev + captures_at(kinds, pos, Square::from_coord_spec(delta), pos.len()).map_values(|k: PieceKind| (k, here))
    }
}

/// The pieces the black king can capture with its legal moves, with the square where each is
/// drawn, direction by direction.
pub fn capture_list(
    layout: &PieceLayout,
    pos: &Position,
    display_king: Coord,
    mode: ViewMode,
    legal_dirs: &[usize],
) -> (r: Vec<(PieceKind, Coord)>)
    requires
        pos.len_spec() <= layout.kinds_spec().len(),
        king_ok(display_king),
    ensures
        r@ == capture_seq(layout.kinds_spec(), pos@, display_king, mode, legal_dirs@, legal_dirs@.len()),
{
    let mut out: Vec<(PieceKind, Coord)> = Vec::new();
    let mut d: usize = 0;
    while d < legal_dirs.len()
        invariant
            pos.len_spec() <= layout.kinds_spec().len(),
            king_ok(display_king),
            d <= legal_dirs@.len(),
            out@ == capture_seq(layout.kinds_spec(), pos@, display_king, mode, legal_dirs@, d as nat),
        decreases legal_dirs@.len() - d,
    {
        let delta = delta_from_dir_index(legal_dirs[d]);
        let dst_sq = Square::from_coord(delta);
        let here = view_point_exec(display_king, delta, mode);
        let ghost start = out@;
        let n = pos.count();
        let mut i: usize = 0;
        while i < n
            invariant
                pos.len_spec() <= layout.kinds_spec().len(),
                n == pos.len_spec(),
                i <= n,
                dst_sq == Square::from_coord_spec(delta),
                out@ == start + captures_at(layout.kinds_spec(), pos@, dst_sq, i as nat).map_values(|k: PieceKind| (k, here)),
            decreases n - i,
        {
            let sq = pos.square(i);
            if !sq.is_none() && sq == dst_sq {
                out.push((layout.kind(i), here));
            }
            proof {
                let f = |k: PieceKind| (k, here);
                let c0 = captures_at(layout.kinds_spec(), pos@, dst_sq, i as nat);
                let c1 = captures_at(layout.kinds_spec(), pos@, dst_sq, (i + 1) as nat);
                if present(pos@[i as int]) && pos@[i as int] == dst_sq {
                    assert(c1 == c0.push(layout.kinds_spec()[i as int]));
                    assert(c1.map_values(f) =~= c0.map_values(f).push(f(layout.kinds_spec()[i as int])));
                    assert(out@ =~= start + c1.map_values(f));
                } else {
                    assert(c1 == c0);
                }
            }
            i += 1;
        }
        d += 1;
    }
    out
}

/// The king-relative squares of the present pieces among the first `k` slots of `pos`.
pub open spec fn piece_points(pos: Seq<Square>, k: nat) -> Seq<Coord>
    decreases k,
{
    if k == 0 {
        Seq::empty()
    } else {
        let prev = piece_points(pos, (k - 1) as nat);
        if present(pos[k - 1]) {
            prev.push(pos[k - 1].coord_spec())
        } else {
            prev
        }
    }
}

/// The smallest box `(min_x, max_x, min_y, max_y)` containing `b` and the first `k` points,
/// each shifted by `king`.
pub open spec fn fold_box(b: (int, int, int, int), king: Coord, pts: Seq<Coord>, k: nat) -> (int, int, int, int)
    decreases k,
{
    if k == 0 {
        b
    } else {
        let p = fold_box(b, king, pts, (k - 1) as nat);
        let x = king.x + pts[k - 1].x;
        let y = king.y + pts[k - 1].y;
        (
            if x < p.0 { x } else { p.0 },
            if x > p.1 { x } else { p.1 },
            if y < p.2 { y } else { p.2 },
            if y > p.3 { y } else { p.3 },
        )
    }
}

/// The king steps of the given direction indices.
pub open spec fn dir_points(dirs: Seq<usize>) -> Seq<Coord> {
    Seq::new(dirs.len(), |i: int| dir_delta_spec(dirs[i] as int))
}

/// The window of the absolute view: the box around the king, the pieces and the legal
/// destinations, padded by one; cropped around the king to `MAX_ABS_DIM` squares per side when
/// larger; widened to keep the king visible; and at least three squares wide and high.
pub open spec fn abs_window_spec(pos: Seq<Square>, king: Coord, dirs: Seq<usize>) -> (int, int, int, int, bool) {
    let pts = piece_points(pos, pos.len()) + dir_points(dirs);
    let b = fold_box((king.x as int, king.x as int, king.y as int, king.y as int), king, pts, pts.len());
    let (min_x, max_x, min_y, max_y) = (b.0 - 1, b.1 + 1, b.2 - 1, b.3 + 1);
    let half = MAX_ABS_DIM / 2;
    let crop_x = max_x - min_x + 1 > MAX_ABS_DIM;
    let crop_y = max_y - min_y + 1 > MAX_ABS_DIM;
    let (min_x, max_x) = if crop_x { (king.x - half, king.x - half + MAX_ABS_DIM - 1) } else { (min_x, max_x) };
    let (min_y, max_y) = if crop_y { (king.y - half, king.y - half + MAX_ABS_DIM - 1) } else { (min_y, max_y) };
    let min_x = if king.x < min_x { king.x as int } else { min_x };
    let max_x = if king.x > max_x { king.x as int } else { max_x };
    let min_y = if king.y < min_y { king.y as int } else { min_y };
    let max_y = if king.y > max_y { king.y as int } else { max_y };
    let (min_x, max_x) = if min_x == max_x { (min_x - 1, max_x + 1) } else { (min_x, max_x) };
    let (min_y, max_y) = if min_y == max_y { (min_y - 1, max_y + 1) } else { (min_y, max_y) };
    (min_x, max_x, min_y, max_y, crop_x || crop_y)
}

/// Every point lies within the coordinate limit.
pub open spec fn points_ok(pts: Seq<Coord>) -> bool {
    forall|i: int| 0 <= i < pts.len() ==> within_limit(#[trigger] pts[i])
}

/// The bound of the window coordinates: the king's bound plus a piece's.
pub open spec fn window_limit() -> int {
    coord_limit() + coord_limit() / 2
}

/// The fold stays within the limits of its inputs.
proof fn lemma_fold_box_bounds(b: (int, int, int, int), king: Coord, pts: Seq<Coord>, k: nat)
    requires
        k <= pts.len(),
        points_ok(pts),
        king_ok(king),
        -window_limit() <= b.0 <= b.1 <= window_limit(),
        -window_limit() <= b.2 <= b.3 <= window_limit(),
    ensures
        ({
            let r = fold_box(b, king, pts, k);
            &&& -window_limit() <= r.0 <= r.1 <= window_limit()
            &&& -window_limit() <= r.2 <= r.3 <= window_limit()
        }),
    decreases k,
{
    if k > 0 {
        lemma_fold_box_bounds(b, king, pts, (k - 1) as nat);
        assert(within_limit(pts[k - 1]));
    }
}

/// The piece points of a position within the limit are within the limit.
proof fn lemma_piece_points_ok(pos: Seq<Square>, k: nat)
    requires
        k <= pos.len(),
        squares_within_limit(pos),
    ensures
        points_ok(piece_points(pos, k)),
    decreases k,
{
    if k > 0 {
        lemma_piece_points_ok(pos, (k - 1) as nat);
        if present(pos[k - 1]) {
            assert(within_limit(pos[k - 1].coord_spec()));
        }
    }
}

/// The window of the absolute view of a position around the king's absolute square.
pub fn compute_abs_window(pos: &Position, display_king: Coord, legal_dirs: &[usize]) -> (r: (i32, i32, i32, i32, bool))
    requires
        squares_within_limit(pos@),
        king_ok(display_king),
    ensures
        (r.0 as int, r.1 as int, r.2 as int, r.3 as int, r.4) == abs_window_spec(pos@, display_king, legal_dirs@),
{
    let ghost pts = piece_points(pos@, pos@.len()) + dir_points(legal_dirs@);
    let ghost init = (display_king.x as int, display_king.x as int, display_king.y as int, display_king.y as int);
    let mut min_x: i32 = display_king.x;
    let mut max_x: i32 = display_king.x;
    let mut min_y: i32 = display_king.y;
    let mut max_y: i32 = display_king.y;
    let ghost mut k: nat = 0;
    proof {
        lemma_piece_points_ok(pos@, pos@.len());
        assert(points_ok(pts)) by {
            assert forall|i: int| 0 <= i < pts.len() implies within_limit(#[trigger] pts[i]) by {
                let pp = piece_points(pos@, pos@.len());
                if i < pp.len() {
                    assert(pts[i] == pp[i]);
                } else {
                    assert(pts[i] == dir_delta_spec(legal_dirs@[i - pp.len()] as int));
                }
            }
        }
    }
    let n = pos.count();
    let mut i: usize = 0;
    while i < n
        invariant
            n == pos.len_spec(),
            n == pos@.len(),
            i <= n,
            squares_within_limit(pos@),
            king_ok(display_king),
            points_ok(pts),
            pts == piece_points(pos@, pos@.len()) + dir_points(legal_dirs@),
            k == piece_points(pos@, i as nat).len(),
            piece_points(pos@, i as nat) == pts.subrange(0, k as int),
            k <= piece_points(pos@, pos@.len()).len(),
            (min_x as int, max_x as int, min_y as int, max_y as int) == fold_box(init, display_king, pts, k),
            init == (display_king.x as int, display_king.x as int, display_king.y as int, display_king.y as int),
        decreases n - i,
    {
        proof {
            lemma_fold_box_bounds(init, display_king, pts, k);
            lemma_piece_points_prefix(pos@, (i + 1) as nat, pos@.len());
        }
        let sq = pos.square(i);
        if !sq.is_none() {
            let rel = sq.coord();
            proof {
                assert(within_limit(pos@[i as int].coord_spec()));
                assert(pts[k as int] == rel) by {
                    let p1 = piece_points(pos@, (i + 1) as nat);
                    let pn = piece_points(pos@, pos@.len());
                    assert(p1 == piece_points(pos@, i as nat).push(rel));
                    assert(p1.len() == k + 1);
                    assert(p1 == pn.subrange(0, (k + 1) as int));
                    assert(p1[k as int] == rel);
                    assert(pn[k as int] == rel);
                    assert(pts[k as int] == pn[k as int]);
                }
            }
            let x = display_king.x + rel.x;
            let y = display_king.y + rel.y;
            if x < min_x { min_x = x; }
            if x > max_x { max_x = x; }
            if y < min_y { min_y = y; }
            if y > max_y { max_y = y; }
            proof {
                k = k + 1;
            }
        }
        i += 1;
    }
    proof {
        assert(k == piece_points(pos@, pos@.len()).len());
    }
    let mut d: usize = 0;
    while d < legal_dirs.len()
        invariant
            king_ok(display_king),
            points_ok(pts),
            pts == piece_points(pos@, pos@.len()) + dir_points(legal_dirs@),
            d <= legal_dirs@.len(),
            k == piece_points(pos@, pos@.len()).len() + d,
            (min_x as int, max_x as int, min_y as int, max_y as int) == fold_box(init, display_king, pts, k),
            init == (display_king.x as int, display_king.x as int, display_king.y as int, display_king.y as int),
        decreases legal_dirs@.len() - d,
    {
        proof {
            lemma_fold_box_bounds(init, display_king, pts, k);
        }
        let delta = delta_from_dir_index(legal_dirs[d]);
        proof {
            assert(pts[k as int] == delta);
        }
        let x = display_king.x + delta.x;
        let y = display_king.y + delta.y;
        if x < min_x { min_x = x; }
        if x > max_x { max_x = x; }
        if y < min_y { min_y = y; }
        if y > max_y { max_y = y; }
        proof {
            k = k + 1;
        }
        d += 1;
    }
    proof {
        lemma_fold_box_bounds(init, display_king, pts, k);
        assert(k == pts.len());
    }
    min_x -= 1;
    max_x += 1;
    min_y -= 1;
    max_y += 1;
    let mut cropped = false;
    let w = max_x - min_x + 1;
    let h = max_y - min_y + 1;
    let half = MAX_ABS_DIM / 2;
    if w > MAX_ABS_DIM {
        cropped = true;
        min_x = display_king.x - half;
        max_x = min_x + MAX_ABS_DIM - 1;
    }
    if h > MAX_ABS_DIM {
        cropped = true;
        min_y = display_king.y - half;
        max_y = min_y + MAX_ABS_DIM - 1;
    }
    if display_king.x < min_x {
        min_x = display_king.x;
    }
    if display_king.x > max_x {
        max_x = display_king.x;
    }
    if display_king.y < min_y {
        min_y = display_king.y;
    }
    if display_king.y > max_y {
        max_y = display_king.y;
    }
    if min_x == max_x {
        min_x -= 1;
        max_x += 1;
    }
    if min_y == max_y {
        min_y -= 1;
        max_y += 1;
    }
    (min_x, max_x, min_y, max_y, cropped)
}

/// The piece points of a longer prefix extend those of a shorter one.
proof fn lemma_piece_points_prefix(pos: Seq<Square>, i: nat, n: nat)
    requires
        i <= n <= pos.len(),
    ensures
        piece_points(pos, i) == piece_points(pos, n).subrange(0, piece_points(pos, i).len() as int),
        piece_points(pos, i).len() <= piece_points(pos, n).len(),
    decreases n - i,
{
    if i < n {
        lemma_piece_points_prefix(pos, i, (n - 1) as nat);
        let a = piece_points(pos, (n - 1) as nat);
        let b = piece_points(pos, n);
        assert(b.subrange(0, a.len() as int) =~= a);
        assert(b.subrange(0, piece_points(pos, i).len() as int) =~= a.subrange(0, piece_points(pos, i).len() as int));
    } else {
        assert(piece_points(pos, n).subrange(0, piece_points(pos, n).len() as int) =~= piece_points(pos, n));
    }
}

/// The last present piece among the first `k` slots that is drawn at `c`.
pub open spec fn last_piece_at(
    kinds: Seq<PieceKind>,
    pos: Seq<Square>,
    king: Coord,
    mode: ViewMode,
    c: Coord,
    k: nat,
) -> Option<PieceKind>
    decreases k,
{
    if k == 0 {
        None
    } else if present(pos[k - 1]) && view_point(king, pos[k - 1].coord_spec(), mode) == c {
        Some(kinds[k - 1])
    } else {
        last_piece_at(kinds, pos, king, mode, c, (k - 1) as nat)
    }
}

/// Some legal direction leads to an empty square drawn at `c`.
pub open spec fn plus_at(pos: Seq<Square>, king: Coord, mode: ViewMode, dirs: Seq<usize>, c: Coord) -> bool {
    exists|d: int|
        0 <= d < dirs.len() && !occupies(pos, dir_delta_spec(dirs[d] as int)) && #[trigger] view_point(
            king,
            dir_delta_spec(dirs[d] as int),
            mode,
        ) == c
}

/// What the board shows at `c`: the black king `k`, else the letter of the last piece drawn
/// there, else `+` for an empty legal destination, else `-`.
pub open spec fn cell_spec(
    kinds: Seq<PieceKind>,
    pos: Seq<Square>,
    king: Coord,
    mode: ViewMode,
    dirs: Seq<usize>,
    c: Coord,
) -> char {
    if view_point(king, Coord { x: 0, y: 0 }, mode) == c {
        'k'
    } else {
        match last_piece_at(kinds, pos, king, mode, c, pos.len()) {
            Some(k) => piece_char_spec(k),
            None => if plus_at(pos, king, mode, dirs, c) {
                '+'
            } else {
                '-'
            },
        }
    }
}

/// What the board shows at `c`.
fn cell_char(
    layout: &PieceLayout,
    pos: &Position,
    display_king: Coord,
    mode: ViewMode,
    legal_dirs: &[usize],
    c: Coord,
) -> (ch: char)
    requires
        pos.len_spec() <= layout.kinds_spec().len(),
        squares_within_limit(pos@),
        king_ok(display_king),
    ensures
        ch == cell_spec(layout.kinds_spec(), pos@, display_king, mode, legal_dirs@, c),
{
    let k_abs = view_point_exec(display_king, Coord::origin(), mode);
    if k_abs == c {
        return 'k';
    }
    let n = pos.count();
    let mut found: Option<PieceKind> = None;
    let mut i: usize = 0;
    while i < n
        invariant
            n == pos.len_spec(),
            n == pos@.len(),
            pos.len_spec() <= layout.kinds_spec().len(),
            squares_within_limit(pos@),
            king_ok(display_king),
            i <= n,
            found == last_piece_at(layout.kinds_spec(), pos@, display_king, mode, c, i as nat),
        decreases n - i,
    {
        let sq = pos.square(i);
        if !sq.is_none() {
            proof {
                assert(present(pos@[i as int]));
                assert(within_limit(pos@[i as int].coord_spec()));
            }
            let p = view_point_exec(display_king, sq.coord(), mode);
            if p == c {
                found = Some(layout.kind(i));
            }
        }
        i += 1;
    }
    match found {
        Some(k) => piece_char(k),
        None => {
            let mut d: usize = 0;
            while d < legal_dirs.len()
                invariant
                    king_ok(display_king),
                    view_point(display_king, Coord { x: 0, y: 0 }, mode) != c,
                    last_piece_at(layout.kinds_spec(), pos@, display_king, mode, c, pos@.len()) is None,
                    d <= legal_dirs@.len(),
                    forall|q: int|
                        0 <= q < d ==> !(!occupies(pos@, dir_delta_spec(legal_dirs@[q] as int)) && #[trigger] view_point(
                            display_king,
                            dir_delta_spec(legal_dirs@[q] as int),
                            mode,
                        ) == c),
                decreases legal_dirs@.len() - d,
            {
                let delta = delta_from_dir_index(legal_dirs[d]);
                if is_empty_destination(pos, delta) && view_point_exec(display_king, delta, mode) == c {
                    proof {
                        assert(view_point(display_king, dir_delta_spec(legal_dirs@[d as int] as int), mode) == c);
                        assert(plus_at(pos@, display_king, mode, legal_dirs@, c));
                    }
                    return '+';
                }
                d += 1;
            }
            '-'
        },
    }
}

/// The window `(min_x, max_x, min_y, max_y, cropped)` of a view.
pub open spec fn window_spec(mode: ViewMode, rel_bound: i32, pos: Seq<Square>, king: Coord, dirs: Seq<usize>) -> (int, int, int, int, bool) {
    match mode {
        ViewMode::Relative => (-rel_bound as int, rel_bound as int, -rel_bound as int, rel_bound as int, false),
        ViewMode::Absolute => abs_window_spec(pos, king, dirs),
    }
}

/// The board as rows of characters, top row first, and whether the absolute view was
/// cropped: row `gy`, column `gx` shows the square `(min_x + gx, max_y - gy)` of the window.
pub fn render_grid(
    layout: &PieceLayout,
    pos: &Position,
    display_king: Coord,
    mode: ViewMode,
    rel_bound: i32,
    legal_dirs: &[usize],
) -> (r: (Vec<Vec<char>>, bool))
    requires
        pos.len_spec() <= layout.kinds_spec().len(),
        squares_within_limit(pos@),
        king_ok(display_king),
        0 <= rel_bound <= coord_limit() / 2,
    ensures
        ({
            let win = window_spec(mode, rel_bound, pos@, display_king, legal_dirs@);
            let w = if win.1 - win.0 + 1 >= 1 { win.1 - win.0 + 1 } else { 1 };
            let h = if win.3 - win.2 + 1 >= 1 { win.3 - win.2 + 1 } else { 1 };
            &&& r.1 == win.4
            &&& r.0@.len() == h
            &&& forall|gy: int| 0 <= gy < h ==> (#[trigger] r.0@[gy])@.len() == w
            &&& forall|gy: int, gx: int|
                0 <= gy < h && 0 <= gx < w ==> #[trigger] r.0@[gy]@[gx] == cell_spec(
                    layout.kinds_spec(),
                    pos@,
                    display_king,
                    mode,
                    legal_dirs@,
                    Coord { x: (win.0 + gx) as i32, y: (win.3 - gy) as i32 },
                )
        }),
{
    let (min_x, max_x, min_y, max_y, cropped) = match mode {
        ViewMode::Relative => (-rel_bound, rel_bound, -rel_bound, rel_bound, false),
        ViewMode::Absolute => compute_abs_window(pos, display_king, legal_dirs),
    };
    proof {
        if mode == ViewMode::Absolute {
            lemma_abs_window_bounds(pos@, display_king, legal_dirs@);
        }
    }
    let w: usize = if max_x - min_x + 1 >= 1 { (max_x - min_x + 1) as usize } else { 1 };
    let h: usize = if max_y - min_y + 1 >= 1 { (max_y - min_y + 1) as usize } else { 1 };
    let ghost win = window_spec(mode, rel_bound, pos@, display_king, legal_dirs@);
    let mut rows: Vec<Vec<char>> = Vec::new();
    let mut gy: usize = 0;
    while gy < h
        invariant
            pos.len_spec() <= layout.kinds_spec().len(),
            squares_within_limit(pos@),
            king_ok(display_king),
            (min_x as int, max_x as int, min_y as int, max_y as int, cropped) == win,
            -window_limit() - 3 <= min_x <= window_limit() + 3,
            -window_limit() - 3 <= max_y <= window_limit() + 3,
            -window_limit() - 3 <= max_x <= window_limit() + 3,
            -window_limit() - 3 <= min_y <= window_limit() + 3,
            min_x <= max_x && min_y <= max_y,
            w == max_x - min_x + 1,
            h == max_y - min_y + 1,
            w == (if win.1 - win.0 + 1 >= 1 { win.1 - win.0 + 1 } else { 1 }),
            h == (if win.3 - win.2 + 1 >= 1 { win.3 - win.2 + 1 } else { 1 }),
            w <= 2 * window_limit() + 7,
            h <= 2 * window_limit() + 7,
            gy <= h,
            rows@.len() == gy,
            forall|y: int| 0 <= y < gy ==> (#[trigger] rows@[y])@.len() == w,
            forall|y: int, x: int|
                0 <= y < gy && 0 <= x < w ==> #[trigger] rows@[y]@[x] == cell_spec(
                    layout.kinds_spec(),
                    pos@,
                    display_king,
                    mode,
                    legal_dirs@,
                    Coord { x: (win.0 + x) as i32, y: (win.3 - y) as i32 },
                ),
        decreases h - gy,
    {
        let mut row: Vec<char> = Vec::new();
        let mut gx: usize = 0;
        while gx < w
            invariant
                pos.len_spec() <= layout.kinds_spec().len(),
                squares_within_limit(pos@),
                king_ok(display_king),
                (min_x as int, max_x as int, min_y as int, max_y as int, cropped) == win,
                -window_limit() - 3 <= min_x <= window_limit() + 3,
                -window_limit() - 3 <= max_y <= window_limit() + 3,
                -window_limit() - 3 <= max_x <= window_limit() + 3,
                -window_limit() - 3 <= min_y <= window_limit() + 3,
                min_x <= max_x && min_y <= max_y,
                w == max_x - min_x + 1,
                h == max_y - min_y + 1,
                w <= 2 * window_limit() + 7,
                gy < h,
                h <= 2 * window_limit() + 7,
                gx <= w,
                row@.len() == gx,
                forall|x: int| 0 <= x < gx ==> #[trigger] row@[x] == cell_spec(
                    layout.kinds_spec(),
                    pos@,
                    display_king,
                    mode,
                    legal_dirs@,
                    Coord { x: (win.0 + x) as i32, y: (win.3 - gy) as i32 },
                ),
            decreases w - gx,
        {
            let c = Coord::new(min_x + gx as i32, max_y - gy as i32);
            row.push(cell_char(layout, pos, display_king, mode, legal_dirs, c));
            gx += 1;
        }
        rows.push(row);
        gy += 1;
    }
    (rows, cropped)
}

/// The absolute window lies within the window limit, padded.
proof fn lemma_abs_window_bounds(pos: Seq<Square>, king: Coord, dirs: Seq<usize>)
    requires
        squares_within_limit(pos),
        king_ok(king),
    ensures
        ({
            let r = abs_window_spec(pos, king, dirs);
            &&& -window_limit() - 3 <= r.0 <= window_limit() + 3
            &&& -window_limit() - 3 <= r.1 <= window_limit() + 3
            &&& -window_limit() - 3 <= r.2 <= window_limit() + 3
            &&& -window_limit() - 3 <= r.3 <= window_limit() + 3
            &&& r.0 < r.1
            &&& r.2 < r.3
        }),
{
    let pts = piece_points(pos, pos.len()) + dir_points(dirs);
    lemma_piece_points_ok(pos, pos.len());
    assert(points_ok(pts)) by {
        assert forall|i: int| 0 <= i < pts.len() implies within_limit(#[trigger] pts[i]) by {
            let pp = piece_points(pos, pos.len());
            if i < pp.len() {
                assert(pts[i] == pp[i]);
            } else {
                assert(pts[i] == dir_delta_spec(dirs[i - pp.len()] as int));
            }
        }
    }
    lemma_fold_box_bounds((king.x as int, king.x as int, king.y as int, king.y as int), king, pts, pts.len());
}

/// The squares of `a` that are not in `b`, in order.
pub open spec fn missing_from(a: Seq<Coord>, b: Seq<Coord>) -> Seq<Coord>
    decreases a.len(),
{
    if a.len() == 0 {
        Seq::empty()
    } else {
        let prev = missing_from(a.drop_last(), b);
        if b.contains(a.last()) {
            prev
        } else {
            prev.push(a.last())
        }
    }
}

/// The squares of `a` that are not in `b`, in order.
pub fn coords_in_a_not_in_b(a: &[Coord], b: &[Coord]) -> (r: Vec<Coord>)
    ensures
        r@ == missing_from(a@, b@),
{
    let mut out: Vec<Coord> = Vec::new();
    let mut i: usize = 0;
    while i < a.len()
        invariant
            i <= a@.len(),
            out@ == missing_from(a@.take(i as int), b@),
        decreases a@.len() - i,
    {
        let x = a[i];
        let mut found = false;
        let mut j: usize = 0;
        while j < b.len()
            invariant
                j <= b@.len(),
                found == exists|q: int| 0 <= q < j && b@[q] == x,
            decreases b@.len() - j,
        {
            if b[j] == x {
                found = true;
            }
            j += 1;
        }
        proof {
            assert(a@.take(i + 1).drop_last() =~= a@.take(i as int));
            assert(a@.take(i + 1).last() == x);
            assert(found == b@.contains(x));
        }
        if !found {
            out.push(x);
        }
        i += 1;
    }
    assert(a@.take(a@.len() as int) =~= a@);
    out
}

/// The squares of the present pieces of slots `start..end`, in order.
pub open spec fn run_coords(pos: Seq<Square>, start: int, end: int) -> Seq<Coord>
    decreases end - start,
{
    if end <= start {
        Seq::empty()
    } else {
        let prev = run_coords(pos, start, end - 1);
        if present(pos[end - 1]) {
            prev.push(pos[end - 1].coord_spec())
        } else {
            prev
        }
    }
}

/// The move of one piece of run `r`, when exactly one of its squares changed.
pub open spec fn run_move(kinds: Seq<PieceKind>, runs: Seq<std::ops::Range<usize>>, from: Seq<Square>, to: Seq<Square>, r: int) -> Option<(PieceKind, Coord, Coord)> {
    let a = run_coords(from, runs[r].start as int, runs[r].end as int);
    let b = run_coords(to, runs[r].start as int, runs[r].end as int);
    let removed = missing_from(a, b);
    let added = missing_from(b, a);
    if removed.len() == 1 && added.len() == 1 {
        Some((kinds[runs[r].start as int], removed[0], added[0]))
    } else {
        None
    }
}

/// The first run, among the first `k`, in which exactly one piece moved.
pub open spec fn first_run_move(kinds: Seq<PieceKind>, runs: Seq<std::ops::Range<usize>>, from: Seq<Square>, to: Seq<Square>, k: nat) -> Option<(PieceKind, Coord, Coord)>
    decreases k,
{
    if k == 0 {
        None
    } else {
        match first_run_move(kinds, runs, from, to, (k - 1) as nat) {
            Some(m) => Some(m),
            None => run_move(kinds, runs, from, to, k - 1),
        }
    }
}

/// Once a run with a single move is found, later runs do not change the answer.
proof fn lemma_first_run_move_stable(
    kinds: Seq<PieceKind>,
    runs: Seq<std::ops::Range<usize>>,
    from: Seq<Square>,
    to: Seq<Square>,
    k: nat,
    m: nat,
)
    requires
        k <= m,
        first_run_move(kinds, runs, from, to, k) is Some,
    ensures
        first_run_move(kinds, runs, from, to, m) == first_run_move(kinds, runs, from, to, k),
    decreases m - k,
{
    if k < m {
        lemma_first_run_move_stable(kinds, runs, from, to, k, (m - 1) as nat);
    }
}

/// The runs lie inside both positions' slots and start on a slot.
pub open spec fn runs_fit(kinds: Seq<PieceKind>, runs: Seq<std::ops::Range<usize>>, n: nat) -> bool {
    forall|r: int| 0 <= r < runs.len() ==> #[trigger] runs[r].start < runs[r].end <= n && runs[r].end <= kinds.len()
}

/// The present squares of slots `start..end` of `pos`.
fn run_squares(pos: &Position, start: usize, end: usize) -> (v: Vec<Coord>)
    requires
        start <= end <= pos.len_spec(),
    ensures
        v@ == run_coords(pos@, start as int, end as int),
{
    let mut v: Vec<Coord> = Vec::new();
    let mut i = start;
    while i < end
        invariant
            start <= i <= end <= pos.len_spec(),
            v@ == run_coords(pos@, start as int, i as int),
        decreases end - i,
    {
        let sq = pos.square(i);
        if !sq.is_none() {
            v.push(sq.coord());
        }
        i += 1;
    }
    v
}

/// The piece that moved from `from` to `to`: the first run of identical pieces in which
/// exactly one square was left and one reached.
pub fn diff_single_piece_move(layout: &PieceLayout, from: &Position, to: &Position) -> (r: Option<(PieceKind, Coord, Coord)>)
    requires
        from.len_spec() == to.len_spec(),
        runs_fit(layout.kinds_spec(), layout.runs_spec(), from.len_spec()),
    ensures
        r == first_run_move(layout.kinds_spec(), layout.runs_spec(), from@, to@, layout.runs_spec().len()),
{
    let runs = layout.identical_runs();
    let mut k: usize = 0;
    while k < runs.len()
        invariant
            from.len_spec() == to.len_spec(),
            runs@ == layout.runs_spec(),
            runs_fit(layout.kinds_spec(), layout.runs_spec(), from.len_spec()),
            k <= runs@.len(),
            first_run_move(layout.kinds_spec(), layout.runs_spec(), from@, to@, k as nat) is None,
        decreases runs@.len() - k,
    {
        let start = runs[k].start;
        let end = runs[k].end;
        proof {
            assert(runs@[k as int].start < runs@[k as int].end <= from.len_spec());
        }
        let kind = layout.kind(start);
        let a = run_squares(from, start, end);
        let b = run_squares(to, start, end);
        let removed = coords_in_a_not_in_b(a.as_slice(), b.as_slice());
        let added = coords_in_a_not_in_b(b.as_slice(), a.as_slice());
        proof {
            assert(runs@[k as int].start == start && runs@[k as int].end == end);
        }
        if removed.len() == 1 && added.len() == 1 {
            proof {
                assert(run_move(layout.kinds_spec(), layout.runs_spec(), from@, to@, k as int) == Some((kind, removed@[0], added@[0])));
                assert(first_run_move(layout.kinds_spec(), layout.runs_spec(), from@, to@, (k + 1) as nat) == Some((kind, removed@[0], added@[0])));
                lemma_first_run_move_stable(layout.kinds_spec(), layout.runs_spec(), from@, to@, (k + 1) as nat, layout.runs_spec().len());
            }
            return Some((kind, removed[0], added[0]));
        }
        k += 1;
    }
    None
}

/// What White did between two positions.
#[derive(Debug, Clone, Copy, PartialEq, Eq)]
pub enum WhiteAction {
    Pass,
    Move { kind: PieceKind, from: Coord, to: Coord },
    Unknown,
}

/// What White did between two positions: a pass when they are equal, else the piece that
/// moved, when one can be told.
pub fn white_action(layout: &PieceLayout, from: &Position, to: &Position) -> (r: WhiteAction)
    requires
        from.len_spec() == to.len_spec(),
        runs_fit(layout.kinds_spec(), layout.runs_spec(), from.len_spec()),
    ensures
        from == to ==> r == WhiteAction::Pass,
        from != to ==> r == match first_run_move(layout.kinds_spec(), layout.runs_spec(), from@, to@, layout.runs_spec().len()) {
            Some((kind, f, t)) => WhiteAction::Move { kind, from: f, to: t },
            None => WhiteAction::Unknown,
        },
{
    if from.same_as(to) {
        return WhiteAction::Pass;
    }
    match diff_single_piece_move(layout, from, to) {
        Some((kind, f, t)) => WhiteAction::Move { kind, from: f, to: t },
        None => WhiteAction::Unknown,
    }
}

/// The outcome of a black move in the player.
#[derive(Debug, Clone, Copy, PartialEq, Eq)]
pub enum MoveOutcome {
    /// No transition in that direction.
    Illegal,
    /// The transition names a state that does not exist.
    BadTransition { w_id: u32 },
    /// White has no saved reply: Black left the solved region.
    Escaped { w_id: u32 },
    /// White's saved reply names a state that does not exist.
    BadStrategy { w_id: u32, next: u32 },
    /// White replied; the game goes on from `next_b`.
    Next { w_id: u32, next_b: u32 },
}

/// White's saved reply from `w_id`: the tempo strategy first, then the trap strategy.
pub open spec fn saved_reply(sol: LoadedSolution, w_id: u32) -> Option<u32> {
    if id_map_contents(sol.strat_tempo).contains_key(w_id) {
        Some(id_map_contents(sol.strat_tempo)[w_id])
    } else if id_map_contents(sol.strat_trap).contains_key(w_id) {
        Some(id_map_contents(sol.strat_trap)[w_id])
    } else {
        None
    }
}

/// Plays Black's move in direction `dir_idx` from state `b_id` and White's saved reply.
pub fn black_move(sol: &LoadedSolution, b_id: usize, dir_idx: usize) -> (r: MoveOutcome)
    requires
        b_id < sol.transitions@.len(),
        dir_idx < 8,
    ensures
        ({
            let w_id = sol.transitions@[b_id as int]@[dir_idx as int];
            let n = sol.states@.len();
            if w_id == u32::MAX {
                r == MoveOutcome::Illegal
            } else if w_id >= n {
                r == (MoveOutcome::BadTransition { w_id })
            } else {
                match saved_reply(*sol, w_id) {
                    None => r == (MoveOutcome::Escaped { w_id }),
                    Some(next) => if next >= n {
                        r == (MoveOutcome::BadStrategy { w_id, next })
                    } else {
                        r == (MoveOutcome::Next { w_id, next_b: next })
                    },
                }
            }
        }),
{
    let w_id = sol.transitions[b_id][dir_idx];
    if w_id == u32::MAX {
        return MoveOutcome::Illegal;
    }
    if w_id as usize >= sol.states.len() {
        return MoveOutcome::BadTransition { w_id };
    }
    let next_b = match sol.strat_tempo.get(w_id) {
        Some(v) => Some(v),
        None => sol.strat_trap.get(w_id),
    };
    match next_b {
        None => MoveOutcome::Escaped { w_id },
        Some(next) => {
            if next as usize >= sol.states.len() {
                MoveOutcome::BadStrategy { w_id, next }
            } else {
                MoveOutcome::Next { w_id, next_b: next }
            }
        },
    }
}

} // verus!
