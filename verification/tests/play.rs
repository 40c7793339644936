use infinite_chess::board::coord::Coord;
use infinite_chess::board::position::{Position, MAX_PIECES};
use infinite_chess::board::square::Square;
use infinite_chess::chess::layout::PieceLayout;
use infinite_chess::chess::piece::PieceKind;
use infinite_chess::scenario::CandidateGeneration;
use infinite_chess::scenarios;
use infinite_chess::search::bounded::{build_scenario, BoundedSpec};
use infinite_chess::solution::play::{
    black_move, capture_list, compute_abs_window, diff_single_piece_move, dir_key, is_empty_destination,
    legal_dirs, piece_char, render_grid, white_action, MoveOutcome, WhiteAction,
};
use infinite_chess::solution::{export_bundle, load_bundle, write_data, ExportOptions, ViewMode};
use infinite_chess::state::packing_fits;

fn pos(squares: &[(i32, i32)]) -> Position {
    let mut arr = [Square::none(); MAX_PIECES];
    for (i, &(x, y)) in squares.iter().enumerate() {
        arr[i] = Square::from_coord(Coord::new(x, y));
    }
    Position::new(squares.len(), arr)
}

fn rows(grid: &[Vec<char>]) -> Vec<String> {
    grid.iter().map(|r| r.iter().collect()).collect()
}

#[test]
fn legal_directions_and_keys() {
    let m = u32::MAX;
    assert_eq!(legal_dirs(&[m, 3, m, 5, m, m, m, 9]), vec![1, 3, 7]);
    assert!(legal_dirs(&[m; 8]).is_empty());
    assert_eq!(dir_key(0), 'q');
    assert_eq!(dir_key(7), 'c');
    assert_eq!(dir_key(8), '?');
    assert_eq!(piece_char(PieceKind::Rook), 'R');
    assert_eq!(piece_char(PieceKind::Knight), 'N');
}

#[test]
fn destinations_and_captures() {
    let layout = PieceLayout::from_counts(false, 0, 1, 0, 0);
    let p = pos(&[(1, 0)]);
    assert!(!is_empty_destination(&p, Coord::new(1, 0)));
    assert!(is_empty_destination(&p, Coord::new(0, 1)));
    let abs = capture_list(&layout, &p, Coord::new(5, 5), ViewMode::Absolute, &[4, 1]);
    assert_eq!(abs, vec![(PieceKind::Rook, Coord::new(6, 5))]);
    let rel = capture_list(&layout, &p, Coord::new(5, 5), ViewMode::Relative, &[4]);
    assert_eq!(rel, vec![(PieceKind::Rook, Coord::new(1, 0))]);
    assert!(capture_list(&layout, &p, Coord::new(5, 5), ViewMode::Relative, &[1]).is_empty());
}

#[test]
fn absolute_window() {
    let p = pos(&[(1, 0)]);
    assert_eq!(compute_abs_window(&p, Coord::new(0, 0), &[4]), (-1, 2, -1, 1, false));
    let far = pos(&[(100, 0)]);
    let (min_x, max_x, min_y, max_y, cropped) = compute_abs_window(&far, Coord::new(0, 0), &[]);
    assert!(cropped);
    assert_eq!((min_x, max_x), (-40, 40));
    assert_eq!((min_y, max_y), (-1, 1));
}

#[test]
fn board_rendering() {
    let layout = PieceLayout::from_counts(false, 0, 1, 0, 0);
    let p = pos(&[(1, 0)]);
    let (grid, cropped) = render_grid(&layout, &p, Coord::new(0, 0), ViewMode::Relative, 1, &[1, 4]);
    assert!(!cropped);
    assert_eq!(rows(&grid), vec!["-+-", "-kR", "---"]);
    let (grid, cropped) = render_grid(&layout, &p, Coord::new(10, 10), ViewMode::Absolute, 1, &[1, 4]);
    assert!(!cropped);
    assert_eq!(rows(&grid), vec!["----", "-+--", "-kR-", "----"]);
}

#[test]
fn white_moves_are_described() {
    let layout = PieceLayout::from_counts(false, 0, 2, 0, 0);
    let from = pos(&[(1, 0), (2, 0)]);
    let to = pos(&[(1, 0), (3, 3)]);
    assert_eq!(diff_single_piece_move(&layout, &from, &to), Some((PieceKind::Rook, Coord::new(2, 0), Coord::new(3, 3))));
    assert_eq!(white_action(&layout, &from, &from), WhiteAction::Pass);
    assert_eq!(
        white_action(&layout, &from, &to),
        WhiteAction::Move { kind: PieceKind::Rook, from: Coord::new(2, 0), to: Coord::new(3, 3) }
    );
    let both = pos(&[(4, 4), (5, 5)]);
    assert_eq!(white_action(&layout, &from, &both), WhiteAction::Unknown);
}

#[test]
fn bounded_scenario_settings() {
    let mut spec = BoundedSpec {
        bound: 2,
        move_bound: 3,
        exclusive: true,
        white_king: false,
        queens: 0,
        rooks: 2,
        bishops: 0,
        knights: 0,
        allow_captures: true,
        white_can_pass: true,
        remove_stalemates: true,
    };
    let scn = build_scenario(&spec).unwrap();
    assert_eq!(scn.name, "bounded_eval");
    assert_eq!(scn.rules.move_bound, 2);
    assert!(scn.track_abs_king);
    assert!(matches!(scn.candidates, CandidateGeneration::InAbsBox { bound: 2, allow_captures: true }));
    assert_eq!(scn.start.state.pos.count(), 2);
    assert!(scn.start.state.pos.squares().iter().all(|s| s.is_none()));
    spec.bound = -1;
    assert_eq!(build_scenario(&spec).err().unwrap(), "bound must be >= 0");
    spec.bound = 2;
    spec.move_bound = 0;
    assert_eq!(build_scenario(&spec).err().unwrap(), "move_bound must be >= 1");
    spec.move_bound = 1;
    assert_eq!(build_scenario(&spec).err().unwrap(), "move_bound_mode=exclusive requires move_bound >= 2");
    spec.exclusive = false;
    assert_eq!(build_scenario(&spec).unwrap().rules.move_bound, 1);
    spec.rooks = 17;
    assert_eq!(build_scenario(&spec).err().unwrap(), "too many pieces");
}

#[test]
fn packing_limits() {
    assert!(packing_fits(9, 1));
    assert!(packing_fits(65535, 7));
    assert!(!packing_fits(65535, 8));
    assert!(!packing_fits(0, 200));
}

#[test]
fn black_moves_follow_the_strategy() {
    let scn = scenarios::three_rooks_bound2_mb1();
    let bundle = export_bundle(&scn, ExportOptions::default(), 0).unwrap();
    let bytes = write_data(&bundle.manifest, &bundle.data).unwrap();
    let sol = load_bundle(bundle.manifest.clone(), &bytes, "data.bin").unwrap();
    let b = sol.manifest.start.state_id as usize;
    for d in 0..8 {
        let w = sol.transitions[b][d];
        match black_move(&sol, b, d) {
            MoveOutcome::Illegal => assert_eq!(w, u32::MAX),
            MoveOutcome::Next { w_id, next_b } => {
                assert_eq!(w_id, w);
                let expected = sol.strat_tempo.get(w).or(sol.strat_trap.get(w));
                assert_eq!(expected, Some(next_b));
            }
            MoveOutcome::Escaped { w_id } => {
                assert_eq!(w_id, w);
                assert!(sol.strat_tempo.get(w).is_none() && sol.strat_trap.get(w).is_none());
            }
            other => panic!("unexpected outcome {other:?}"),
        }
    }
}
