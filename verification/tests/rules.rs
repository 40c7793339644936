use infinite_chess::board::coord::Coord;
use infinite_chess::board::position::{Position, MAX_PIECES};
use infinite_chess::board::square::Square;
use infinite_chess::chess::layout::PieceLayout;
use infinite_chess::chess::rules::Rules;
use infinite_chess::scenarios::pos_from_coords;
use infinite_chess::search::mates::count_checkmates_in_bound;

fn rooks(coords: &[Coord]) -> (Rules, Position) {
    let layout = PieceLayout::from_counts(false, 0, coords.len(), 0, 0);
    let pos = pos_from_coords(&layout, coords);
    (Rules::new(layout, 100), pos)
}

#[test]
fn square_round_trips_coordinates() {
    for &(x, y) in &[(0, 0), (1, -1), (-5, 7), (123456, -654321)] {
        let sq = Square::from_coord(Coord::new(x, y));
        assert!(!sq.is_none());
        assert_eq!(sq.coord(), Coord::new(x, y));
        assert_eq!(Square::from_raw(sq.raw()), sq);
    }
    assert!(Square::none().is_none());
}

#[test]
fn coord_arithmetic() {
    let a = Coord::new(3, -4);
    let b = Coord::new(-1, 2);
    assert_eq!(a.plus(b), Coord::new(2, -2));
    assert_eq!(a.minus(b), Coord::new(4, -6));
    assert_eq!(a.negated(), Coord::new(-3, 4));
    assert_eq!(b.scaled(3), Coord::new(-3, 6));
    assert_eq!(a.chebyshev_norm(), 4);
    assert!(a.in_box(4));
    assert!(!a.in_box(3));
}

#[test]
fn three_rooks_on_adjacent_ranks_mate() {
    let (rules, pos) = rooks(&[Coord::new(10, -1), Coord::new(10, 0), Coord::new(10, 1)]);
    assert!(rules.is_attacked(Coord::origin(), &pos));
    assert!(rules.black_moves(&pos).is_empty());
    assert!(rules.is_checkmate(&pos));
    assert!(!rules.is_stalemate(&pos));
}

#[test]
fn two_rooks_leave_an_escape() {
    let (rules, pos) = rooks(&[Coord::new(10, 0), Coord::new(10, 1)]);
    assert!(rules.is_attacked(Coord::origin(), &pos));
    assert!(!rules.is_checkmate(&pos));
    // The king steps to the rank below.
    assert_eq!(rules.black_moves(&pos).len(), 3);
}

#[test]
fn blocked_rook_does_not_attack() {
    let (rules, pos) = rooks(&[Coord::new(3, 0), Coord::new(2, 0)]);
    assert!(rules.is_attacked(Coord::origin(), &pos));
    assert!(rules.is_attacked(Coord::new(1, 0), &pos));
    // The nearer rook blocks the farther one beyond itself only along its own line.
    assert!(!rules.is_attacked(Coord::new(1, 1), &pos));
}

#[test]
fn piece_on_king_square_is_illegal() {
    let (rules, pos) = rooks(&[Coord::new(0, 0)]);
    assert!(!rules.is_legal_position(&pos));
    let (rules, pos) = rooks(&[Coord::new(0, 1)]);
    assert!(rules.is_legal_position(&pos));
}

#[test]
fn white_king_next_to_black_king_is_illegal() {
    let layout = PieceLayout::from_counts(true, 0, 0, 0, 0);
    let pos = pos_from_coords(&layout, &[Coord::new(1, 1)]);
    let rules = Rules::new(layout.clone(), 1);
    assert!(!rules.is_legal_position(&pos));
    let pos = pos_from_coords(&layout, &[Coord::new(2, 1)]);
    assert!(rules.is_legal_position(&pos));
}

#[test]
fn captured_pieces_do_not_attack() {
    let layout = PieceLayout::from_counts(false, 0, 1, 0, 0);
    let mut squares = [Square::none(); MAX_PIECES];
    squares[0] = Square::none();
    let pos = Position::new(1, squares);
    let rules = Rules::new(layout, 5);
    assert!(!rules.is_attacked(Coord::origin(), &pos));
    assert_eq!(rules.black_moves(&pos).len(), 8);
}

#[test]
fn lone_rook_or_knight_never_mates() {
    let rook = Rules::new(PieceLayout::from_counts(false, 0, 1, 0, 0), 10);
    assert_eq!(count_checkmates_in_bound(&rook, 3), 0);
    let knight = Rules::new(PieceLayout::from_counts(false, 0, 0, 0, 1), 10);
    assert_eq!(count_checkmates_in_bound(&knight, 3), 0);
}

#[test]
fn slides_respect_the_move_bound() {
    let layout = PieceLayout::from_counts(false, 0, 1, 0, 0);
    let pos = pos_from_coords(&layout, &[Coord::new(5, 5)]);
    // Four directions, `move_bound` squares each, nothing in the way.
    assert_eq!(Rules::new(layout.clone(), 1).white_moves(&pos, false).len(), 4);
    assert_eq!(Rules::new(layout.clone(), 3).white_moves(&pos, false).len(), 12);
    // A pass adds one more move.
    assert_eq!(Rules::new(layout, 3).white_moves(&pos, true).len(), 13);
}
