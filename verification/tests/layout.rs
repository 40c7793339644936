use infinite_chess::chess::layout::PieceLayout;
use infinite_chess::chess::piece::PieceKind;
use infinite_chess::chess::config::ScenarioConfig;

#[test]
fn runs_group_identical_pieces() {
    let layout = PieceLayout::from_counts(true, 0, 3, 2, 0);
    assert_eq!(layout.piece_count(), 6);
    assert_eq!(layout.identical_runs().len(), 3);
    assert_eq!(layout.identical_runs()[0], 0..1);
    assert_eq!(layout.identical_runs()[1], 1..4);
    assert_eq!(layout.identical_runs()[2], 4..6);
}

#[test]
fn layout_orders_kinds_king_first() {
    let layout = PieceLayout::from_counts(true, 1, 1, 1, 1);
    assert_eq!(
        layout.kinds(),
        &[PieceKind::King, PieceKind::Queen, PieceKind::Rook, PieceKind::Bishop, PieceKind::Knight]
    );
    assert_eq!(layout.white_king_index(), Some(0));
    let no_king = PieceLayout::from_counts(false, 0, 2, 0, 0);
    assert_eq!(no_king.white_king_index(), None);
    assert_eq!(no_king.identical_runs(), &[0..2]);
}

#[test]
fn empty_layout_has_no_runs() {
    let layout = PieceLayout::from_counts(false, 0, 0, 0, 0);
    assert_eq!(layout.piece_count(), 0);
    assert!(layout.identical_runs().is_empty());
}

#[test]
fn config_summary_names_runs() {
    let cfg = ScenarioConfig::new("demo", 2, 1, true, true, PieceLayout::from_counts(true, 0, 3, 2, 0));
    assert_eq!(cfg.piece_runs(), vec![(PieceKind::King, 1), (PieceKind::Rook, 3), (PieceKind::Bishop, 2)]);
    assert_eq!(cfg.piece_summary(), "Kingx1, Rookx3, Bishopx2");
    let rules = cfg.rules();
    assert_eq!(rules.move_bound, 1);
    assert_eq!(rules.layout.piece_count(), 6);
}
