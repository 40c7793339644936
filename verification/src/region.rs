//! Finite sets of board squares with a dense numbering.
use vstd::prelude::*;

use crate::coord::Coord;

verus! {

/// The largest absolute coordinate a region may hold.
pub const BOX: i16 = 127;

/// The lexicographic order on coordinates: by `x`, then by `y`.
pub open spec fn coord_lt(a: Coord, b: Coord) -> bool {
    a.x < b.x || (a.x == b.x && a.y < b.y)
}

/// Both components lie in `-BOX..=BOX`.
pub open spec fn in_box(c: Coord) -> bool {
    -BOX <= c.x <= BOX && -BOX <= c.y <= BOX
}

/// `s` is strictly increasing in the coordinate order.
pub open spec fn sorted_coords(s: Seq<Coord>) -> bool {
    forall|i: int, j: int| 0 <= i < j < s.len() ==> coord_lt(#[trigger] s[i], #[trigger] s[j])
}

/// A valid square list: strictly sorted, inside the box, and numbered by `u16` with one code
/// to spare.
pub open spec fn region_ok(s: Seq<Coord>) -> bool {
    &&& sorted_coords(s)
    &&& forall|i: int| 0 <= i < s.len() ==> in_box(#[trigger] s[i])
    &&& s.len() <= 65025
}

/// A finite set of coordinates, numbered `0..size` in coordinate order.
#[derive(Clone, Debug)]
pub struct Region {
    coords: Vec<Coord>,
}

impl View for Region {
    type V = Seq<Coord>;

    closed spec fn view(&self) -> Seq<Coord> {
        self.coords@
    }
}

/// The key of a coordinate in the box, increasing with the coordinate order.
spec fn box_key(c: Coord) -> int {
    (c.x + 127) * 255 + (c.y + 127)
}

/// In a strictly sorted list inside the box, the key of entry `i` is at least `i`.
proof fn lemma_key_ge_index(s: Seq<Coord>, i: int)
    requires
        sorted_coords(s),
        forall|k: int| 0 <= k < s.len() ==> in_box(#[trigger] s[k]),
        0 <= i < s.len(),
    ensures
        box_key(s[i]) >= i,
    decreases i,
{
    assert(in_box(s[i]));
    if i > 0 {
        lemma_key_ge_index(s, i - 1);
        assert(coord_lt(s[i - 1], s[i]));
        assert(in_box(s[i - 1]));
    }
}

/// A strictly sorted list inside the box has at most `255 * 255` entries.
proof fn lemma_sorted_box_len(s: Seq<Coord>)
    requires
        sorted_coords(s),
        forall|i: int| 0 <= i < s.len() ==> in_box(#[trigger] s[i]),
    ensures
        s.len() <= 65025,
{
    if s.len() > 0 {
        lemma_key_ge_index(s, s.len() - 1);
        assert(in_box(s[s.len() - 1]));
    }
}

/// `a` comes before `b` in the coordinate order.
fn coord_less(a: Coord, b: Coord) -> (r: bool)
    ensures
        r == coord_lt(a, b),
{
    a.x < b.x || (a.x == b.x && a.y < b.y)
}

/// The first position of `v` whose coordinate does not come before `c`.
fn lower_bound(v: &Vec<Coord>, c: Coord) -> (p: usize)
    requires
        sorted_coords(v@),
    ensures
        p <= v@.len(),
        forall|j: int| 0 <= j < p ==> coord_lt(#[trigger] v@[j], c),
        forall|j: int| p <= j < v@.len() ==> !coord_lt(#[trigger] v@[j], c),
{
    let mut lo: usize = 0;
    let mut hi: usize = v.len();
    while lo < hi
        invariant
            lo <= hi <= v@.len(),
            sorted_coords(v@),
            forall|j: int| 0 <= j < lo ==> coord_lt(#[trigger] v@[j], c),
            forall|j: int| hi <= j < v@.len() ==> !coord_lt(#[trigger] v@[j], c),
        decreases hi - lo,
    {
        let mid = lo + (hi - lo) / 2;
        if coord_less(v[mid], c) {
            assert forall|j: int| 0 <= j < mid + 1 implies coord_lt(#[trigger] v@[j], c) by {
                if j < mid {
                    assert(coord_lt(v@[j], v@[mid as int]));
                }
            }
            lo = mid + 1;
        } else {
            assert forall|j: int| mid <= j < v@.len() implies !coord_lt(#[trigger] v@[j], c) by {
                if j > mid {
                    assert(coord_lt(v@[mid as int], v@[j]));
                }
            }
            hi = mid;
        }
    }
    lo
}

/// Adds `c` to the sorted list `v` unless it is already there.
fn insert_unique(v: &mut Vec<Coord>, c: Coord)
    requires
        sorted_coords(old(v)@),
    ensures
        sorted_coords(final(v)@),
        forall|x: Coord| final(v)@.contains(x) <==> (old(v)@.contains(x) || x == c),
        final(v)@.len() <= old(v)@.len() + 1,
{
    let p = lower_bound(v, c);
    if p < v.len() && v[p] == c {
        return;
    }
    let ghost before = v@;
    v.insert(p, c);
    proof {
        let after = v@;
        assert(after =~= before.subrange(0, p as int).push(c) + before.subrange(p as int, before.len() as int));
        assert forall|i: int, j: int| 0 <= i < j < after.len() implies coord_lt(#[trigger] after[i], #[trigger] after[j]) by {
            if j < p {
                assert(after[i] == before[i] && after[j] == before[j]);
            } else if j == p {
                assert(after[i] == before[i]);
            } else if i < p {
                assert(after[i] == before[i] && after[j] == before[j - 1]);
                assert(coord_lt(before[i], before[j - 1]) || i == j - 1);
            } else if i == p {
                assert(after[j] == before[j - 1]);
                assert(!coord_lt(before[j - 1], c));
                assert(before[j - 1] != c) by {
                    if j - 1 > p {
                        assert(coord_lt(before[p as int], before[j - 1]));
                        assert(!coord_lt(before[p as int], c));
                    }
                }
            } else {
                assert(after[i] == before[i - 1] && after[j] == before[j - 1]);
            }
        }
        assert forall|x: Coord| after.contains(x) <==> (before.contains(x) || x == c) by {
            if after.contains(x) {
                let k = choose|k: int| 0 <= k < after.len() && after[k] == x;
                if k < p {
                    assert(before[k] == x);
                } else if k > p {
                    assert(before[k - 1] == x);
                }
            }
            if before.contains(x) {
                let k = choose|k: int| 0 <= k < before.len() && before[k] == x;
                if k < p {
                    assert(after[k] == x);
                } else {
                    assert(after[k + 1] == x);
                }
            }
            if x == c {
                assert(after[p as int] == x);
            }
        }
    }
}

/// Every coordinate of `s` lies in the box.
pub open spec fn all_in_box(s: Seq<Coord>) -> bool {
    forall|i: int| 0 <= i < s.len() ==> in_box(#[trigger] s[i])
}

/// The eight knight moves.
pub open spec fn knight_step(k: int) -> (int, int) {
    if k == 0 {
        (1, 2)
    } else if k == 1 {
        (2, 1)
    } else if k == 2 {
        (-1, 2)
    } else if k == 3 {
        (-2, 1)
    } else if k == 4 {
        (1, -2)
    } else if k == 5 {
        (2, -1)
    } else if k == 6 {
        (-1, -2)
    } else {
        (-2, -1)
    }
}

/// The knight steps are the eight knight jumps, each once.
pub proof fn lemma_knight_steps_are_knight_jumps()
    ensures
        forall|k: int| 0 <= k < 8 ==> crate::chess::piece::is_knight_jump((#[trigger] knight_step(k)).0, knight_step(k).1),
        forall|dx: int, dy: int| #[trigger] crate::chess::piece::is_knight_jump(dx, dy)
            ==> exists|k: int| 0 <= k < 8 && #[trigger] knight_step(k) == (dx, dy),
        forall|k: int, l: int| 0 <= k < l < 8 ==> #[trigger] knight_step(k) != #[trigger] knight_step(l),
{
    assert forall|dx: int, dy: int| #[trigger] crate::chess::piece::is_knight_jump(dx, dy)
        implies exists|k: int| 0 <= k < 8 && #[trigger] knight_step(k) == (dx, dy) by {
        if dx == 1 && dy == 2 { assert(knight_step(0) == (dx, dy)); }
        else if dx == 2 && dy == 1 { assert(knight_step(1) == (dx, dy)); }
        else if dx == -1 && dy == 2 { assert(knight_step(2) == (dx, dy)); }
        else if dx == -2 && dy == 1 { assert(knight_step(3) == (dx, dy)); }
        else if dx == 1 && dy == -2 { assert(knight_step(4) == (dx, dy)); }
        else if dx == 2 && dy == -1 { assert(knight_step(5) == (dx, dy)); }
        else if dx == -1 && dy == -2 { assert(knight_step(6) == (dx, dy)); }
        else { assert(knight_step(7) == (dx, dy)); }
    }
}

/// The square one knight move `m` away from `q`.
pub open spec fn knight_next(q: (int, int), m: int) -> (int, int) {
    (q.0 + knight_step(m).0, q.1 + knight_step(m).1)
}

/// The squares at most `k` knight moves from the origin.
pub open spec fn knight_reach(k: nat) -> Set<(int, int)>
    decreases k,
{
    if k == 0 {
        set![(0int, 0int)]
    } else {
        let prev = knight_reach((k - 1) as nat);
        Set::new(
            |p: (int, int)|
                prev.contains(p) || exists|q: (int, int), m: int|
                    0 <= m < 8 && prev.contains(q) && p == #[trigger] knight_next(q, m),
        )
    }
}

/// Squares within `k` knight moves lie within distance `2k` on both axes.
pub proof fn lemma_knight_reach_bound(k: nat, p: (int, int))
    requires
        knight_reach(k).contains(p),
    ensures
        -2 * k <= p.0 <= 2 * k,
        -2 * k <= p.1 <= 2 * k,
    decreases k,
{
    if k > 0 {
        let prev = knight_reach((k - 1) as nat);
        if prev.contains(p) {
            lemma_knight_reach_bound((k - 1) as nat, p);
        } else {
            let (q, m) = choose|q: (int, int), m: int|
                0 <= m < 8 && prev.contains(q) && p == #[trigger] knight_next(q, m);
            lemma_knight_reach_bound((k - 1) as nat, q);
        }
    }
}

/// The position of `c` in `s` (meaningful when `s` contains it).
pub open spec fn sq_index(s: Seq<Coord>, c: Coord) -> int {
    choose|i: int| 0 <= i < s.len() && s[i] == c
}

/// In a strictly sorted list, the position of an entry is its only position.
pub proof fn lemma_sq_index(s: Seq<Coord>, i: int)
    requires
        sorted_coords(s),
        0 <= i < s.len(),
    ensures
        sq_index(s, s[i]) == i,
{
    let j = sq_index(s, s[i]);
    assert(0 <= j < s.len() && s[j] == s[i]);
    if j < i {
        assert(coord_lt(s[j], s[i]));
    } else if j > i {
        assert(coord_lt(s[i], s[j]));
    }
}

/// The pair of components of a coordinate.
pub open spec fn pair_of(c: Coord) -> (int, int) {
    (c.x as int, c.y as int)
}

impl Region {
    /// The region is well formed.
    pub open spec fn wf(&self) -> bool {
        region_ok(self@)
    }

    /// A square `L∞` ball: `max(|x|, |y|) <= radius`.
    pub fn linf(radius: i16) -> (r: Region)
        requires
            0 <= radius <= BOX,
        ensures
            r.wf(),
            forall|c: Coord| r@.contains(c) <==> c.l_inf_spec() <= radius,
            r@.len() == (2 * radius + 1) * (2 * radius + 1),
    {
        let mut coords: Vec<Coord> = Vec::new();
        let mut x: i16 = -radius;
        let ghost side: int = 2 * radius + 1;
        assert((x + radius) * side == 0) by (nonlinear_arith)
            requires
                x + radius == 0;
        while x <= radius
            invariant
                0 <= radius <= BOX,
                side == 2 * radius + 1,
                -radius <= x <= radius + 1,
                all_in_box(coords@),
                forall|c: Coord| coords@.contains(c) <==> (c.l_inf_spec() <= radius && c.x < x),
                coords@.no_duplicates(),
                coords@.len() == (x + radius) * side,
            decreases radius + 1 - x,
        {
            let mut y: i16 = -radius;
            while y <= radius
                invariant
                    0 <= radius <= BOX,
                    side == 2 * radius + 1,
                    -radius <= x <= radius,
                    -radius <= y <= radius + 1,
                    all_in_box(coords@),
                    forall|c: Coord| coords@.contains(c) <==> (c.l_inf_spec() <= radius && (c.x < x || (c.x == x && c.y < y))),
                    coords@.no_duplicates(),
                    coords@.len() == (x + radius) * side + (y + radius),
                decreases radius + 1 - y,
            {
                let ghost before = coords@;
                let c0 = Coord::new(x, y);
                assert(!before.contains(c0));
                coords.push(c0);
                assert(coords@.no_duplicates()) by {
                    assert forall|i: int, j: int| 0 <= i < coords@.len() && 0 <= j < coords@.len() && i != j implies coords@[i] != coords@[j] by {
                        if i < before.len() && j < before.len() {
                            assert(before[i] != before[j]);
                        } else if i < before.len() {
                            assert(before.contains(before[i]));
                        } else if j < before.len() {
                            assert(before.contains(before[j]));
                        }
                    }
                }
                assert forall|c: Coord| coords@.contains(c) <==> (c.l_inf_spec() <= radius && (c.x < x || (c.x == x && c.y < y + 1))) by {
                    if coords@.contains(c) && c != c0 {
                        let k = choose|k: int| 0 <= k < coords@.len() && coords@[k] == c;
                        assert(before[k] == c);
                        assert(before.contains(c));
                    }
                    if c.l_inf_spec() <= radius && (c.x < x || (c.x == x && c.y < y)) {
                        assert(before.contains(c));
                        let k = choose|k: int| 0 <= k < before.len() && before[k] == c;
                        assert(coords@[k] == c);
                    }
                    if c.x == x && c.y == y {
                        assert(c == c0);
                        assert(coords@[coords@.len() - 1] == c);
                    }
                }
                y += 1;
            }
            assert((x + radius) * side + side == (x + 1 + radius) * side) by (nonlinear_arith);
            x += 1;
        }
        let r = Self::from_coords(coords);
        proof {
            assert(r@.no_duplicates()) by {
                assert forall|i: int, j: int| 0 <= i < r@.len() && 0 <= j < r@.len() && i != j implies r@[i] != r@[j] by {
                    if i < j {
                        assert(coord_lt(r@[i], r@[j]));
                    } else {
                        assert(coord_lt(r@[j], r@[i]));
                    }
                }
            }
            assert(r@.to_set() =~= coords@.to_set());
            r@.unique_seq_to_set();
            coords@.unique_seq_to_set();
        }
        r
    }

    /// A diamond `L1` ball: `|x| + |y| <= radius`.
    pub fn l1(radius: i16) -> (r: Region)
        requires
            0 <= radius <= BOX,
        ensures
            r.wf(),
            forall|c: Coord| r@.contains(c) <==> c.l1_spec() <= radius,
    {
        let mut coords: Vec<Coord> = Vec::new();
        let mut x: i16 = -radius;
        while x <= radius
            invariant
                0 <= radius <= BOX,
                -radius <= x <= radius + 1,
                all_in_box(coords@),
                forall|c: Coord| coords@.contains(c) <==> (c.l1_spec() <= radius && c.x < x),
            decreases radius + 1 - x,
        {
            let mut y: i16 = -radius;
            while y <= radius
                invariant
                    0 <= radius <= BOX,
                    -radius <= x <= radius,
                    -radius <= y <= radius + 1,
                    all_in_box(coords@),
                    forall|c: Coord| coords@.contains(c) <==> (c.l1_spec() <= radius && (c.x < x || (c.x == x && c.y < y))),
                decreases radius + 1 - y,
            {
                let c0 = Coord::new(x, y);
                let ghost before = coords@;
                if c0.l1() <= radius {
                    coords.push(c0);
                }
                assert forall|c: Coord| coords@.contains(c) <==> (c.l1_spec() <= radius && (c.x < x || (c.x == x && c.y < y + 1))) by {
                    if coords@.contains(c) && c != c0 {
                        let k = choose|k: int| 0 <= k < coords@.len() && coords@[k] == c;
                        assert(before[k] == c);
                        assert(before.contains(c));
                    }
                    if c.l1_spec() <= radius && (c.x < x || (c.x == x && c.y < y)) {
                        assert(before.contains(c));
                        let k = choose|k: int| 0 <= k < before.len() && before[k] == c;
                        assert(coords@[k] == c);
                    }
                    if c.x == x && c.y == y && c.l1_spec() <= radius {
                        assert(c == c0);
                        assert(coords@[coords@.len() - 1] == c);
                    }
                }
                y += 1;
            }
            x += 1;
        }
        Self::from_coords(coords)
    }

    /// Every square at most `radius` knight moves from the origin.
    pub fn knight_distance(radius: u16) -> (r: Region)
        requires
            radius <= 63,
        ensures
            r.wf(),
            forall|c: Coord| r@.contains(c) <==> knight_reach(radius as nat).contains(pair_of(c)),
    {
        let mut cur: Vec<Coord> = Vec::new();
        cur.push(Coord::new(0, 0));
        proof {
            assert forall|c: Coord| cur@.contains(c) <==> knight_reach(0).contains(pair_of(c)) by {
                if cur@.contains(c) {
                    let k = choose|k: int| 0 <= k < cur@.len() && cur@[k] == c;
                    assert(k == 0);
                }
                if knight_reach(0).contains(pair_of(c)) {
                    assert(cur@[0] == c);
                }
            }
        }
        let mut d: u16 = 0;
        while d < radius
            invariant
                d <= radius <= 63,
                sorted_coords(cur@),
                forall|c: Coord| cur@.contains(c) <==> knight_reach(d as nat).contains(pair_of(c)),
            decreases radius - d,
        {
            let mut next: Vec<Coord> = cur.clone();
            proof {
                assert(next@ == cur@);
            }
            let mut i: usize = 0;
            while i < cur.len()
                invariant
                    d < radius <= 63,
                    i <= cur@.len(),
                    sorted_coords(cur@),
                    sorted_coords(next@),
                    forall|c: Coord| cur@.contains(c) <==> knight_reach(d as nat).contains(pair_of(c)),
                    forall|c: Coord| #[trigger] next@.contains(c) <==> (cur@.contains(c) || exists|j: int, m: int|
                        0 <= j < i && 0 <= m < 8 && pair_of(c) == knight_next(pair_of(cur@[j]), m)),
                decreases cur@.len() - i,
            {
                let q = cur[i];
                proof {
                    assert(cur@.contains(q));
                    lemma_knight_reach_bound(d as nat, pair_of(q));
                }
                let moves: [(i16, i16); 8] = [(1, 2), (2, 1), (-1, 2), (-2, 1), (1, -2), (2, -1), (-1, -2), (-2, -1)];
                let mut m: usize = 0;
                while m < 8
                    invariant
                        d < radius <= 63,
                        i < cur@.len(),
                        q == cur@[i as int],
                        -2 * d <= q.x <= 2 * d,
                        -2 * d <= q.y <= 2 * d,
                        m <= 8,
                        moves@ == seq![(1i16, 2i16), (2i16, 1i16), (-1i16, 2i16), (-2i16, 1i16), (1i16, -2i16), (2i16, -1i16), (-1i16, -2i16), (-2i16, -1i16)],
                        sorted_coords(next@),
                        forall|c: Coord| #[trigger] next@.contains(c) <==> (cur@.contains(c) || exists|j: int, mm: int|
                            (0 <= j < i && 0 <= mm < 8 || j == i && 0 <= mm < m) && pair_of(c) == knight_next(pair_of(cur@[j]), mm)),
                    decreases 8 - m,
                {
                    let (mx, my) = moves[m];
                    assert(mx as int == knight_step(m as int).0 && my as int == knight_step(m as int).1);
                    let nc = Coord::new(q.x + mx, q.y + my);
                    let ghost before = next@;
                    insert_unique(&mut next, nc);
                    assert forall|c: Coord| #[trigger] next@.contains(c) <==> (cur@.contains(c) || exists|j: int, mm: int|
                        (0 <= j < i && 0 <= mm < 8 || j == i && 0 <= mm < m + 1) && pair_of(c) == knight_next(pair_of(cur@[j]), mm)) by {
                        if c == nc {
                            assert(pair_of(c) == knight_next(pair_of(cur@[i as int]), m as int));
                        }
                        if exists|j: int, mm: int|
                            (0 <= j < i && 0 <= mm < 8 || j == i && 0 <= mm < m + 1) && pair_of(c) == knight_next(pair_of(cur@[j]), mm) {
                            let (j, mm) = choose|j: int, mm: int|
                                (0 <= j < i && 0 <= mm < 8 || j == i && 0 <= mm < m + 1) && pair_of(c) == knight_next(pair_of(cur@[j]), mm);
                            if j == i && mm == m {
                                assert(c == nc);
                            } else {
                                assert(before.contains(c));
                            }
                        }
                    }
                    m += 1;
                }
                i += 1;
            }
            proof {
                assert forall|c: Coord| next@.contains(c) <==> knight_reach((d + 1) as nat).contains(pair_of(c)) by {
                    let prev = knight_reach(d as nat);
                    if next@.contains(c) && !cur@.contains(c) {
                        let (j, mm) = choose|j: int, mm: int|
                            0 <= j < cur@.len() && 0 <= mm < 8 && pair_of(c) == knight_next(pair_of(cur@[j]), mm);
                        assert(cur@.contains(cur@[j]));
                        assert(prev.contains(pair_of(cur@[j])));
                    }
                    if knight_reach((d + 1) as nat).contains(pair_of(c)) && !prev.contains(pair_of(c)) {
                        let (qq, mm) = choose|qq: (int, int), mm: int|
                            0 <= mm < 8 && prev.contains(qq) && pair_of(c) == #[trigger] knight_next(qq, mm);
                        lemma_knight_reach_bound(d as nat, qq);
                        let qc = Coord { x: qq.0 as i16, y: qq.1 as i16 };
                        assert(pair_of(qc) == qq);
                        assert(cur@.contains(qc));
                        let j = choose|j: int| 0 <= j < cur@.len() && cur@[j] == qc;
                        assert(pair_of(c) == knight_next(pair_of(cur@[j]), mm));
                    }
                }
            }
            cur = next;
            d += 1;
        }
        proof {
            assert forall|i: int| 0 <= i < cur@.len() implies in_box(#[trigger] cur@[i]) by {
                assert(cur@.contains(cur@[i]));
                lemma_knight_reach_bound(radius as nat, pair_of(cur@[i]));
            }
            lemma_sorted_box_len(cur@);
        }
        Region { coords: cur }
    }

    /// Builds the region of the given coordinates, sorted and without repeats.
    fn from_coords(coords: Vec<Coord>) -> (r: Region)
        requires
            all_in_box(coords@),
        ensures
            r.wf(),
            forall|c: Coord| r@.contains(c) <==> coords@.contains(c),
    {
        let mut out: Vec<Coord> = Vec::new();
        let mut i: usize = 0;
        while i < coords.len()
            invariant
                i <= coords@.len(),
                all_in_box(coords@),
                sorted_coords(out@),
                forall|c: Coord| #[trigger] out@.contains(c) <==> exists|j: int| 0 <= j < i && coords@[j] == c,
            decreases coords@.len() - i,
        {
            let ghost before = out@;
            insert_unique(&mut out, coords[i]);
            assert forall|c: Coord| #[trigger] out@.contains(c) <==> exists|j: int| 0 <= j < i + 1 && coords@[j] == c by {
                if c == coords@[i as int] {
                    assert(coords@[i as int] == c);
                }
                if exists|j: int| 0 <= j < i + 1 && coords@[j] == c {
                    let j = choose|j: int| 0 <= j < i + 1 && coords@[j] == c;
                    if j < i {
                        assert(before.contains(c));
                    }
                }
            }
            i += 1;
        }
        proof {
            assert forall|k: int| 0 <= k < out@.len() implies in_box(#[trigger] out@[k]) by {
                assert(out@.contains(out@[k]));
                let j = choose|j: int| 0 <= j < coords@.len() && coords@[j] == out@[k];
            }
            assert forall|c: Coord| out@.contains(c) <==> coords@.contains(c) by {
                if coords@.contains(c) {
                    let j = choose|j: int| 0 <= j < coords@.len() && coords@[j] == c;
                }
            }
            lemma_sorted_box_len(out@);
        }
        Region { coords: out }
    }

    /// A copy of the region.
    pub fn duplicate(&self) -> (r: Region)
        ensures
            r@ == self@,
    {
        let mut coords: Vec<Coord> = Vec::new();
        let mut i: usize = 0;
        while i < self.coords.len()
            invariant
                i <= self.coords@.len(),
                coords@ == self.coords@.subrange(0, i as int),
            decreases self.coords@.len() - i,
        {
            coords.push(self.coords[i]);
            i += 1;
            assert(coords@ =~= self.coords@.subrange(0, i as int));
        }
        assert(coords@ =~= self.coords@);
        Region { coords }
    }

    /// The number of squares.
    pub fn size(&self) -> (n: usize)
        ensures
            n == self@.len(),
    {
        self.coords.len()
    }

    /// The coordinate of square `sq`.
    pub fn coord_of(&self, sq: u16) -> (c: Coord)
        requires
            sq < self@.len(),
        ensures
            c == self@[sq as int],
    {
        self.coords[sq as usize]
    }

    /// The square number of `coord`, if it is in the region.
    pub fn sq_of(&self, coord: Coord) -> (r: Option<u16>)
        requires
            self.wf(),
        ensures
            match r {
                Some(sq) => sq < self@.len() && self@[sq as int] == coord && sq == sq_index(self@, coord),
                None => !self@.contains(coord),
            },
    {
        let p = lower_bound(&self.coords, coord);
        if p < self.coords.len() && self.coords[p] == coord {
            proof {
                lemma_sq_index(self@, p as int);
            }
            Some(p as u16)
        } else {
            proof {
                if self@.contains(coord) {
                    let k = choose|k: int| 0 <= k < self@.len() && self@[k] == coord;
                    if k < p {
                        assert(coord_lt(self@[k], coord));
                    } else if k > p {
                        assert(coord_lt(self@[p as int], self@[k]));
                    }
                }
            }
            None
        }
    }

    /// Whether `coord` is in the region.
    pub fn contains(&self, coord: Coord) -> (b: bool)
        requires
            self.wf(),
        ensures
            b == self@.contains(coord),
    {
        self.sq_of(coord).is_some()
    }
}

} // verus!
