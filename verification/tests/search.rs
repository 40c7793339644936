use infinite_chess::board::coord::Coord;
use infinite_chess::board::position::{Position, MAX_PIECES};
use infinite_chess::board::square::Square;
use infinite_chess::chess::bounds::enumerate_positions_in_bound;
use infinite_chess::chess::layout::PieceLayout;
use infinite_chess::chess::rules::Rules;
use infinite_chess::scenario::{
    legal_moves_black, CacheMode, CandidateGeneration, NoLaws, NoPreferences, ResourceLimits, Scenario, SearchError,
    Side, StartState, State,
};
use infinite_chess::scenarios::{self, BuiltinDomain};
use infinite_chess::search::bounded::{abs_square, compute_bounded_counts};
use infinite_chess::search::buchi::{tempo_trap_buchi, tempo_trap_buchi_with_strategy};
use infinite_chess::search::forced_mate::forced_mate_bounded;
use infinite_chess::search::mates::{checkmates_in_bound, count_checkmates_in_bound};
use infinite_chess::search::movegen::legal_moves_white;
use infinite_chess::search::resources::ResourceTracker;
use infinite_chess::search::strategy::extract_white_stay_strategy;
use infinite_chess::search::trap::{maximal_inescapable_trap, maximal_tempo_trap};
use infinite_chess::search::universe::states_in_abs_box;

fn captured(layout: &PieceLayout) -> Position {
    Position::new(layout.piece_count(), [Square::none(); MAX_PIECES])
}

fn box_scenario(rooks: usize, bound: i32, white_can_pass: bool) -> Scenario<BuiltinDomain, NoLaws, NoPreferences> {
    let layout = PieceLayout::from_counts(false, 0, rooks, 0, 0);
    let start = captured(&layout);
    Scenario {
        name: "box",
        rules: Rules::new(layout, 1),
        white_can_pass,
        track_abs_king: true,
        start: StartState { to_move: Side::Black, state: State::new(Coord::origin(), start) },
        candidates: CandidateGeneration::InAbsBox { bound, allow_captures: true },
        domain: BuiltinDomain::AbsBox { bound },
        laws: NoLaws,
        preferences: NoPreferences,
        limits: ResourceLimits::default(),
        cache_mode: CacheMode::BothBounded,
        remove_stalemates: true,
    }
}

#[test]
fn abs_box_universe_sizes() {
    let one = PieceLayout::from_counts(false, 0, 1, 0, 0);
    // Nine king squares, eight other box squares for the rook, or the rook captured.
    assert_eq!(states_in_abs_box(&one, 1, false).len(), 72);
    assert_eq!(states_in_abs_box(&one, 1, true).len(), 81);
    for s in states_in_abs_box(&one, 1, true) {
        assert!(s.abs_king.in_box(1));
    }
}

#[test]
fn linf_enumeration_sizes() {
    let one = PieceLayout::from_counts(false, 0, 1, 0, 0);
    assert_eq!(enumerate_positions_in_bound(&one, 1, false).len(), 8);
    assert_eq!(enumerate_positions_in_bound(&one, 1, true).len(), 9);
    let two = PieceLayout::from_counts(false, 0, 2, 0, 0);
    // Identical rooks: unordered pairs of distinct squares.
    assert_eq!(enumerate_positions_in_bound(&two, 1, false).len(), 28);
}

#[test]
fn counted_mates_are_mates() {
    let rules = Rules::new(PieceLayout::from_counts(false, 0, 3, 0, 0), 1);
    let mates = checkmates_in_bound(&rules, 2);
    assert_eq!(mates.len(), count_checkmates_in_bound(&rules, 2));
    for p in &mates {
        assert!(rules.is_checkmate(p));
    }
}

#[test]
fn trap_of_three_rooks_is_inescapable() {
    let scn = scenarios::three_rooks_bound2_mb1();
    let trap = maximal_inescapable_trap(&scn).unwrap();
    let states = trap.to_vec();
    assert!(!states.is_empty());
    for b in &states {
        for w in legal_moves_black(&scn, &scn.laws, b) {
            let replies = legal_moves_white(&scn, &scn.laws, &w);
            assert!(replies.iter().any(|r| trap.contains(r)));
        }
    }
}

#[test]
fn tempo_trap_stays_inside_trap() {
    let scn = scenarios::three_rooks_bound2_mb1();
    let trap = maximal_inescapable_trap(&scn).unwrap();
    let tempo = maximal_tempo_trap(&scn, &trap).unwrap();
    assert!(tempo.is_subset(&trap));
    for b in tempo.to_vec() {
        for w in legal_moves_black(&scn, &scn.laws, &b) {
            let replies = legal_moves_white(&scn, &scn.laws, &w);
            assert!(replies.iter().any(|r| tempo.contains(r)));
        }
    }
}

#[test]
fn stay_strategy_replies_into_trap() {
    let scn = scenarios::three_rooks_bound2_mb1();
    let trap = maximal_inescapable_trap(&scn).unwrap();
    let strategy = extract_white_stay_strategy(&scn, &trap).unwrap();
    assert!(strategy.len() > 0);
    for (w, b) in strategy.to_vec() {
        assert!(trap.contains(&b));
        assert!(legal_moves_white(&scn, &scn.laws, &w).contains(&b));
    }
}

#[test]
fn forced_mate_distances_follow_the_moves() {
    let scn = box_scenario(3, 1, false);
    let res = forced_mate_bounded(&scn, true).unwrap();
    let dtm = res.dtm.expect("distances requested");
    assert_eq!(dtm.len(), res.winning_btm.len());
    for b in res.winning_btm.to_vec() {
        let d = dtm.get(&b).expect("every winning state has a distance");
        if d == 0 {
            assert!(scn.rules.is_checkmate(&b.pos));
            continue;
        }
        let moves = legal_moves_black(&scn, &scn.laws, &b);
        assert!(!moves.is_empty());
        for w in moves {
            let better = legal_moves_white(&scn, &scn.laws, &w)
                .into_iter()
                .any(|r| res.winning_btm.contains(&r) && dtm.get(&r).unwrap() + 2 <= d);
            assert!(better);
        }
    }
}

#[test]
fn forced_mate_without_distances() {
    let scn = box_scenario(3, 1, false);
    let res = forced_mate_bounded(&scn, false).unwrap();
    assert!(res.dtm.is_none());
}

#[test]
fn forced_mate_needs_an_abs_box() {
    let scn = scenarios::three_rooks_bound2_mb1();
    assert!(matches!(forced_mate_bounded(&scn, false), Err(SearchError::InvalidScenario { .. })));
    assert!(matches!(compute_bounded_counts(&scn), Err(SearchError::InvalidScenario { .. })));
}

#[test]
fn bounded_counts_are_consistent() {
    let scn = box_scenario(2, 1, true);
    let c = compute_bounded_counts(&scn).unwrap();
    assert!(c.universe_states > 0);
    assert!(c.checkmates_in_universe <= c.universe_states);
    assert!(c.mate >= c.checkmates_in_universe);
    assert!(c.tempo <= c.trap);
    assert!(c.trap <= c.universe_states);
}

#[test]
fn abs_square_adds_the_anchor() {
    let layout = PieceLayout::from_counts(false, 0, 1, 0, 0);
    let s = State::new(Coord::new(3, -2), captured(&layout));
    assert_eq!(abs_square(&s, Coord::new(1, 1)), Coord::new(4, -1));
}

#[test]
fn tracker_reports_exceeded_limits() {
    let mut limits = ResourceLimits::default();
    limits.max_states = 1;
    let mut t = ResourceTracker::new(limits);
    assert!(t.bump_states("test", 1).is_ok());
    match t.bump_states("test", 1) {
        Err(SearchError::LimitExceeded { stage, metric, limit, observed, .. }) => {
            assert_eq!(stage, "test");
            assert_eq!(metric, "states");
            assert_eq!(limit, 1);
            assert_eq!(observed, 2);
        }
        other => panic!("expected a limit error, got {:?}", other),
    }
}

#[test]
fn validate_rejects_piece_on_king_square() {
    let mut scn = box_scenario(1, 1, false);
    let layout = PieceLayout::from_counts(false, 0, 1, 0, 0);
    scn.start.state = State::new(Coord::origin(), scenarios::pos_from_coords(&layout, &[Coord::new(0, 0)]));
    assert!(matches!(scn.validate(), Err(SearchError::InvalidScenario { .. })));
    assert!(box_scenario(1, 1, false).validate().is_ok());
}

#[test]
fn builtin_scenarios_by_name() {
    assert_eq!(scenarios::names(), vec!["three_rooks_bound2_mb1", "two_rooks_bound7", "nbb20_from_file", "nbb7_generated"]);
    assert!(matches!(scenarios::by_name("nbb7_generated", None), Err(SearchError::InvalidScenario { .. })));
    assert_eq!(scenarios::available_names(), scenarios::names());
    let s = scenarios::by_name("three_rooks_bound2_mb1", None).unwrap().unwrap();
    assert_eq!(s.name, "three_rooks_bound2_mb1");
    assert!(s.validate().is_ok());
    let s = scenarios::by_name("two_rooks_bound7", None).unwrap().unwrap();
    assert_eq!(s.rules.move_bound, 7);
    assert!(scenarios::by_name("nope", None).unwrap().is_none());
    assert!(matches!(scenarios::by_name("nbb20_from_file", None), Err(SearchError::Io { .. })));
}

#[test]
fn nbb_data_lists_relative_states() {
    let data = b"1 1 2 3 4 4 -1 3\n";
    let s = scenarios::by_name("nbb20_from_file", Some(&data[..])).unwrap().unwrap();
    assert_eq!(s.rules.move_bound, 23);
    match &s.candidates {
        CandidateGeneration::FromStates { states } => {
            assert_eq!(states.len(), 1);
            assert_eq!(states[0].abs_king, Coord::new(1, 1));
            // Knight last, bishops first and sorted.
            assert_eq!(states[0].pos.square(2).coord(), Coord::new(1, 2));
            assert_eq!(states[0].pos.square(0).coord(), Coord::new(-2, 2));
            assert_eq!(states[0].pos.square(1).coord(), Coord::new(3, 3));
        }
        _ => panic!("expected explicit states"),
    }
    assert!(scenarios::by_name("nbb20_from_file", Some(&b"no numbers"[..])).is_err());
}

#[test]
fn error_messages() {
    let e = SearchError::Io { stage: "s", path: "p".to_string(), error: "e".to_string() };
    assert_eq!(e.to_message(), "io error at s for p: e");
    let e = SearchError::InvalidScenario { reason: "r".to_string() };
    assert_eq!(e.to_message(), "invalid scenario: r");
    let mut limits = ResourceLimits::default();
    limits.max_edges = 0;
    let mut t = ResourceTracker::new(limits);
    let e = t.bump_edges("g", 3).unwrap_err();
    assert_eq!(
        e.to_message(),
        "limit exceeded at g: edges (limit=0, observed=3); counts(states=0, edges=3, cache_entries=0, cached_moves=0, runtime_steps=0)"
    );
}

#[test]
fn tempo_strategy_set_matches_tempo_trap() {
    let scn = scenarios::three_rooks_bound2_mb1();
    let trap = maximal_inescapable_trap(&scn).unwrap();
    let tempo = tempo_trap_buchi(&scn, &trap).unwrap();
    let (tempo2, strategy) = tempo_trap_buchi_with_strategy(&scn, &trap).unwrap();
    assert_eq!(tempo.len(), tempo2.len());
    assert!(tempo.is_subset(&tempo2));
    assert!(tempo2.is_subset(&trap));
    for b in tempo2.to_vec() {
        for w in legal_moves_black(&scn, &scn.laws, &b) {
            let reply = strategy.get(&w).expect("a reply after every black move from the tempo trap");
            assert!(tempo2.contains(&reply));
            assert!(legal_moves_white(&scn, &scn.laws, &w).contains(&reply));
            if scn.white_can_pass && tempo2.contains(&w) {
                assert_eq!(reply, w);
            }
        }
    }
}
