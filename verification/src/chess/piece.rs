use vstd::prelude::*;

use crate::board::coord::Coord;

verus! {

/// The kinds of white pieces.
#[derive(Debug, Clone, Copy, PartialEq, Eq, Hash, PartialOrd, Ord, Structural)]
pub enum PieceKind {
    King,
    Queen,
    Rook,
    Bishop,
    Knight,
}

/// The rook directions, in order.
pub open spec fn rook_dirs_spec() -> Seq<Coord> {
    seq![
        Coord { x: 1, y: 0 },
        Coord { x: -1i32, y: 0 },
        Coord { x: 0, y: 1 },
        Coord { x: 0, y: -1i32 },
    ]
}

/// The bishop directions, in order.
pub open spec fn bishop_dirs_spec() -> Seq<Coord> {
    seq![
        Coord { x: 1, y: 1 },
        Coord { x: 1, y: -1i32 },
        Coord { x: -1i32, y: 1 },
        Coord { x: -1i32, y: -1i32 },
    ]
}

/// The queen directions: the rook directions followed by the bishop directions.
pub open spec fn queen_dirs_spec() -> Seq<Coord> {
    rook_dirs_spec() + bishop_dirs_spec()
}

/// The eight knight jumps, in order.
pub open spec fn knight_deltas_spec() -> Seq<Coord> {
    seq![
        Coord { x: 2, y: 1 },
        Coord { x: 2, y: -1i32 },
        Coord { x: -2i32, y: 1 },
        Coord { x: -2i32, y: -1i32 },
        Coord { x: 1, y: 2 },
        Coord { x: 1, y: -2i32 },
        Coord { x: -1i32, y: 2 },
        Coord { x: -1i32, y: -2i32 },
    ]
}

impl PieceKind {
    /// Unit directions of a sliding piece (empty for kings and knights).
    pub open spec fn slide_dirs_spec(self) -> Seq<Coord> {
        match self {
            PieceKind::Queen => queen_dirs_spec(),
            PieceKind::Rook => rook_dirs_spec(),
            PieceKind::Bishop => bishop_dirs_spec(),
            _ => Seq::empty(),
        }
    }

    /// True for queens, rooks and bishops.
    pub open spec fn is_slider(self) -> bool {
        self == PieceKind::Queen || self == PieceKind::Rook || self == PieceKind::Bishop
    }

    /// Unit directions of a sliding piece (empty for kings and knights).
    pub fn slide_dirs(self) -> (v: Vec<Coord>)
        ensures
            v@ == self.slide_dirs_spec(),
    {
        let mut v: Vec<Coord> = Vec::new();
        match self {
            PieceKind::Queen | PieceKind::Rook => {
                v.push(Coord { x: 1, y: 0 });
                v.push(Coord { x: -1i32, y: 0 });
                v.push(Coord { x: 0, y: 1 });
                v.push(Coord { x: 0, y: -1i32 });
            },
            _ => {},
        }
        match self {
            PieceKind::Queen | PieceKind::Bishop => {
                v.push(Coord { x: 1, y: 1 });
                v.push(Coord { x: 1, y: -1i32 });
                v.push(Coord { x: -1i32, y: 1 });
                v.push(Coord { x: -1i32, y: -1i32 });
            },
            _ => {},
        }
        proof {
            assert(v@ =~= self.slide_dirs_spec());
        }
        v
    }
}

/// `(dx, dy)` moves two squares along one axis and one square along the other.
pub open spec fn is_knight_jump(dx: int, dy: int) -> bool {
    ||| (dx == 1 || dx == -1) && (dy == 2 || dy == -2)
    ||| (dx == 2 || dx == -2) && (dy == 1 || dy == -1)
}

/// `(dx, dy)` is one square along a rank or a file.
pub open spec fn is_orthogonal_unit(dx: int, dy: int) -> bool {
    ||| dx == 0 && (dy == 1 || dy == -1)
    ||| dy == 0 && (dx == 1 || dx == -1)
}

/// `(dx, dy)` is one square along a diagonal.
pub open spec fn is_diagonal_unit(dx: int, dy: int) -> bool {
    (dx == 1 || dx == -1) && (dy == 1 || dy == -1)
}

/// The knight jump table holds each of the eight knight jumps exactly once, and nothing else.
pub proof fn lemma_knight_deltas_are_knight_jumps()
    ensures
        knight_deltas_spec().len() == 8,
        knight_deltas_spec().no_duplicates(),
        forall|c: Coord| #[trigger] knight_deltas_spec().contains(c) <==> is_knight_jump(c.x as int, c.y as int),
{
    let t = knight_deltas_spec();
    assert forall|c: Coord| #[trigger] t.contains(c) <==> is_knight_jump(c.x as int, c.y as int) by {
        if t.contains(c) {
            let i = choose|i: int| 0 <= i < t.len() && t[i] == c;
            assert(0 <= i < 8);
        }
        if is_knight_jump(c.x as int, c.y as int) {
            let i: int = if c.x == 2 && c.y == 1 { 0 } else if c.x == 2 && c.y == -1 { 1 } else if c.x == -2 && c.y == 1 { 2 }
                else if c.x == -2 && c.y == -1 { 3 } else if c.x == 1 && c.y == 2 { 4 } else if c.x == 1 && c.y == -2 { 5 }
                else if c.x == -1 && c.y == 2 { 6 } else { 7 };
            assert(t[i] == c);
        }
    }
}

/// The rook directions are the four unit steps along ranks and files, each once.
pub proof fn lemma_rook_dirs_are_orthogonal()
    ensures
        rook_dirs_spec().len() == 4,
        rook_dirs_spec().no_duplicates(),
        forall|c: Coord| #[trigger] rook_dirs_spec().contains(c) <==> is_orthogonal_unit(c.x as int, c.y as int),
{
    let t = rook_dirs_spec();
    assert forall|c: Coord| #[trigger] t.contains(c) <==> is_orthogonal_unit(c.x as int, c.y as int) by {
        if t.contains(c) {
            let i = choose|i: int| 0 <= i < t.len() && t[i] == c;
            assert(0 <= i < 4);
        }
        if is_orthogonal_unit(c.x as int, c.y as int) {
            let i: int = if c.x == 1 { 0 } else if c.x == -1 { 1 } else if c.y == 1 { 2 } else { 3 };
            assert(t[i] == c);
        }
    }
}

/// The bishop directions are the four unit diagonal steps, each once.
pub proof fn lemma_bishop_dirs_are_diagonal()
    ensures
        bishop_dirs_spec().len() == 4,
        bishop_dirs_spec().no_duplicates(),
        forall|c: Coord| #[trigger] bishop_dirs_spec().contains(c) <==> is_diagonal_unit(c.x as int, c.y as int),
{
    let t = bishop_dirs_spec();
    assert forall|c: Coord| #[trigger] t.contains(c) <==> is_diagonal_unit(c.x as int, c.y as int) by {
        if t.contains(c) {
            let i = choose|i: int| 0 <= i < t.len() && t[i] == c;
            assert(0 <= i < 4);
        }
        if is_diagonal_unit(c.x as int, c.y as int) {
            let i: int = if c.x == 1 && c.y == 1 { 0 } else if c.x == 1 { 1 } else if c.y == 1 { 2 } else { 3 };
            assert(t[i] == c);
        }
    }
}

/// The queen directions are the eight unit steps along ranks, files and diagonals, each once.
pub proof fn lemma_queen_dirs_are_king_steps()
    ensures
        queen_dirs_spec().len() == 8,
        queen_dirs_spec().no_duplicates(),
        forall|c: Coord| #[trigger] queen_dirs_spec().contains(c)
            <==> (is_orthogonal_unit(c.x as int, c.y as int) || is_diagonal_unit(c.x as int, c.y as int)),
{
    lemma_rook_dirs_are_orthogonal();
    lemma_bishop_dirs_are_diagonal();
    let t = queen_dirs_spec();
    assert forall|i: int, j: int| 0 <= i < j < t.len() implies t[i] != t[j] by {
        if i < 4 && j >= 4 {
            assert(rook_dirs_spec().contains(t[i]));
            assert(bishop_dirs_spec().contains(t[j]));
        } else if j < 4 {
            assert(t[i] == rook_dirs_spec()[i] && t[j] == rook_dirs_spec()[j]);
        } else {
            assert(t[i] == bishop_dirs_spec()[i - 4] && t[j] == bishop_dirs_spec()[j - 4]);
        }
    }
    assert forall|c: Coord| #[trigger] t.contains(c)
        <==> (is_orthogonal_unit(c.x as int, c.y as int) || is_diagonal_unit(c.x as int, c.y as int)) by {
        if t.contains(c) {
            let i = choose|i: int| 0 <= i < t.len() && t[i] == c;
            if i < 4 {
                assert(rook_dirs_spec()[i] == c);
                assert(rook_dirs_spec().contains(c));
            } else {
                assert(bishop_dirs_spec()[i - 4] == c);
                assert(bishop_dirs_spec().contains(c));
            }
        }
        if is_orthogonal_unit(c.x as int, c.y as int) {
            assert(rook_dirs_spec().contains(c));
            let i = choose|i: int| 0 <= i < 4 && rook_dirs_spec()[i] == c;
            assert(t[i] == c);
        }
        if is_diagonal_unit(c.x as int, c.y as int) {
            assert(bishop_dirs_spec().contains(c));
            let i = choose|i: int| 0 <= i < 4 && bishop_dirs_spec()[i] == c;
            assert(t[i + 4] == c);
        }
    }
}

/// The `i`-th knight jump.
pub fn knight_delta(i: usize) -> (c: Coord)
    requires
        i < 8,
    ensures
        c == knight_deltas_spec()[i as int],
{
    if i == 0 { Coord { x: 2, y: 1 } }
    else if i == 1 { Coord { x: 2, y: -1i32 } }
    else if i == 2 { Coord { x: -2i32, y: 1 } }
    else if i == 3 { Coord { x: -2i32, y: -1i32 } }
    else if i == 4 { Coord { x: 1, y: 2 } }
    else if i == 5 { Coord { x: 1, y: -2i32 } }
    else if i == 6 { Coord { x: -1i32, y: 2 } }
    else { Coord { x: -1i32, y: -2i32 } }
}

} // verus!
