use infinite_chess::board::coord::Coord;
use infinite_chess::board::position::{Position, MAX_PIECES};
use infinite_chess::board::square::Square;
use infinite_chess::chess::layout::PieceLayout;
use infinite_chess::chess::rules::Rules;
use infinite_chess::scenario::{SearchError, State};
use infinite_chess::scenarios;
use infinite_chess::solution::codec::{encode_tables, read_data, to_u32_len};
use infinite_chess::solution::{
    delta_from_dir_index, dir_index_from_key, direction_deltas, direction_labels, export_bundle, load_bundle,
    manifest_rules, piece_count_from_manifest, rules_from_manifest, rules_manifest_from_rules, write_data,
    ExportOptions, ManifestSide, RulesManifest, SolutionData, ViewMode,
};

fn state(king: (i32, i32), squares: &[(i32, i32)]) -> State {
    let mut arr = [Square::none(); MAX_PIECES];
    for (i, &(x, y)) in squares.iter().enumerate() {
        arr[i] = Square::from_coord(Coord::new(x, y));
    }
    State::new(Coord::new(king.0, king.1), Position::new(squares.len(), arr))
}

fn sample_data() -> SolutionData {
    SolutionData {
        states: vec![state((0, 0), &[(1, 2), (3, -4)]), state((-7, 9), &[(-1, 0), (5, 5)])],
        trap_set_ids: vec![0, 1],
        tempo_set_ids: vec![1],
        transitions: vec![(0, [1, u32::MAX, 0, 0, 0, 0, 0, 7]), (1, [u32::MAX; 8])],
        strategy_trap: vec![(0, 1), (1, 0)],
        strategy_tempo: vec![(1, 1)],
    }
}

fn assert_same(a: &SolutionData, b: &SolutionData) {
    assert_eq!(a.states, b.states);
    assert_eq!(a.trap_set_ids, b.trap_set_ids);
    assert_eq!(a.tempo_set_ids, b.tempo_set_ids);
    assert_eq!(a.transitions, b.transitions);
    assert_eq!(a.strategy_trap, b.strategy_trap);
    assert_eq!(a.strategy_tempo, b.strategy_tempo);
}

#[test]
fn data_table_reads_back() {
    let d = sample_data();
    let bytes = encode_tables(1, 2, &d).unwrap();
    assert_eq!(&bytes[0..8], b"ICHSOL01");
    assert_eq!(&bytes[8..12], &[1, 0, 0, 0]);
    assert_eq!(&bytes[12..16], &[2, 0, 0, 0]);
    let back = read_data(&bytes, 2, "data.bin").unwrap();
    assert_same(&d, &back);
    // Trailing bytes are ignored.
    let mut longer = bytes.clone();
    longer.extend_from_slice(&[9, 9, 9]);
    assert_same(&d, &read_data(&longer, 2, "data.bin").unwrap());
}

#[test]
fn data_table_layout_is_little_endian() {
    let d = SolutionData {
        states: vec![state((-1, 2), &[(0, 1)])],
        trap_set_ids: vec![0x0102_0304],
        tempo_set_ids: vec![],
        transitions: vec![],
        strategy_trap: vec![],
        strategy_tempo: vec![],
    };
    let bytes = encode_tables(1, 1, &d).unwrap();
    // header 16, states: 4 + (4 + 4 + 8), trap: 4 + 4, four empty lists: 16
    assert_eq!(bytes.len(), 16 + 20 + 8 + 16);
    assert_eq!(&bytes[16..20], &[1, 0, 0, 0]);
    assert_eq!(&bytes[20..24], &[0xff, 0xff, 0xff, 0xff]);
    assert_eq!(&bytes[24..28], &[2, 0, 0, 0]);
    let raw = d.states[0].pos.square(0).raw();
    assert_eq!(&bytes[28..36], &raw.to_le_bytes());
    assert_eq!(&bytes[36..40], &[1, 0, 0, 0]);
    assert_eq!(&bytes[40..44], &[4, 3, 2, 1]);
}

#[test]
fn data_table_errors() {
    let bytes = encode_tables(1, 2, &sample_data()).unwrap();
    let mut wrong = bytes.clone();
    wrong[0] = b'X';
    assert!(matches!(read_data(&wrong, 2, "p"), Err(SearchError::InvalidScenario { .. })));
    assert!(matches!(read_data(&bytes[..5], 2, "p"), Err(SearchError::Io { .. })));
    assert!(matches!(read_data(&bytes[..40], 2, "p"), Err(SearchError::Io { .. })));
    match read_data(&bytes[..bytes.len() - 1], 2, "p") {
        Err(SearchError::Io { stage, path, .. }) => {
            assert_eq!(stage, "solution_load_data_read");
            assert_eq!(path, "p");
        }
        _ => panic!("expected a read error"),
    }
    let v2 = encode_tables(2, 2, &sample_data()).unwrap();
    assert!(matches!(read_data(&v2, 2, "p"), Err(SearchError::InvalidScenario { .. })));
    assert!(matches!(read_data(&bytes, 3, "p"), Err(SearchError::InvalidScenario { .. })));
}

#[test]
fn length_fits_u32() {
    assert_eq!(to_u32_len(7, "x").unwrap(), 7);
}

#[test]
fn directions_match_keys() {
    let labels = direction_labels();
    assert_eq!(labels, ['q', 'w', 'e', 'a', 'd', 'z', 'x', 'c']);
    let deltas = direction_deltas();
    assert_eq!(deltas.len(), 8);
    for (i, &k) in labels.iter().enumerate() {
        assert_eq!(dir_index_from_key(k), Some(i));
        assert_eq!(deltas[&k], delta_from_dir_index(i));
    }
    assert_eq!(dir_index_from_key('k'), None);
    assert_eq!(delta_from_dir_index(0), Coord::new(-1, 1));
    assert_eq!(delta_from_dir_index(7), Coord::new(1, -1));
    assert_eq!(delta_from_dir_index(8), Coord::origin());
}

#[test]
fn rules_manifest_round_trip() {
    let rules = Rules::new(PieceLayout::from_counts(true, 1, 2, 0, 1), 5);
    let m = rules_manifest_from_rules(&rules);
    assert_eq!(
        m,
        RulesManifest { white_king: true, queens: 1, rooks: 2, bishops: 0, knights: 1, move_bound: 5 }
    );
    assert_eq!(piece_count_from_manifest(&m).unwrap(), 5);
    let back = rules_from_manifest(&m).unwrap();
    assert_eq!(back.layout.kinds(), rules.layout.kinds());
    assert_eq!(back.move_bound, 5);
    let big = RulesManifest { white_king: false, queens: 9, rooks: 8, bishops: 0, knights: 0, move_bound: 1 };
    assert!(matches!(piece_count_from_manifest(&big), Err(SearchError::InvalidScenario { .. })));
}

#[test]
fn default_export_options() {
    let o = ExportOptions::default();
    assert!(!o.force);
    assert!(o.compute_tempo);
    assert_eq!(o.view_bound, None);
}

#[test]
fn exported_bundle_loads_back() {
    let scn = scenarios::three_rooks_bound2_mb1();
    let bundle = export_bundle(&scn, ExportOptions::default(), 1234).unwrap();
    let m = &bundle.manifest;
    assert_eq!(m.format_version, 1);
    assert_eq!(m.created_unix_secs, 1234);
    assert_eq!(m.scenario_name, "three_rooks_bound2_mb1");
    assert_eq!(m.start.to_move, ManifestSide::Black);
    assert_eq!(m.view.default_mode, ViewMode::Relative);
    assert_eq!(m.view.recommended_bound, 2);
    assert_eq!(m.files.data_bin, "data.bin");
    assert_eq!(m.counts.states as usize, bundle.data.states.len());
    assert_eq!(m.counts.trap as usize, bundle.data.trap_set_ids.len());
    assert_eq!(bundle.data.transitions.len(), bundle.data.trap_set_ids.len());
    assert!(manifest_rules(m).is_ok());

    let bytes = write_data(m, &bundle.data).unwrap();
    let loaded = load_bundle(m.clone(), &bytes, "data.bin").unwrap();
    assert_eq!(loaded.states, bundle.data.states);
    assert_eq!(loaded.trap_ids.len(), bundle.data.trap_set_ids.len());
    for &(id, next) in &bundle.data.transitions {
        assert_eq!(loaded.transitions[id as usize], next);
        assert!(loaded.trap_ids.contains(id));
    }
    for (i, s) in loaded.states.iter().enumerate() {
        assert_eq!(loaded.id_of.get(s), Some(i as u32));
    }
    for &(w, b) in &bundle.data.strategy_trap {
        assert_eq!(loaded.strat_trap.get(w), Some(b));
    }
}

#[test]
fn load_rejects_other_versions() {
    let scn = scenarios::three_rooks_bound2_mb1();
    let bundle = export_bundle(&scn, ExportOptions { force: false, compute_tempo: false, view_bound: Some(4) }, 0).unwrap();
    assert_eq!(bundle.manifest.view.recommended_bound, 4);
    assert!(bundle.data.tempo_set_ids.is_empty());
    assert!(bundle.data.strategy_tempo.is_empty());
    let bytes = write_data(&bundle.manifest, &bundle.data).unwrap();
    let mut m = bundle.manifest.clone();
    m.format_version = 2;
    assert!(matches!(load_bundle(m, &bytes, "data.bin"), Err(SearchError::InvalidScenario { .. })));
}

#[test]
fn load_rejects_out_of_range_transitions() {
    let scn = scenarios::three_rooks_bound2_mb1();
    let bundle = export_bundle(&scn, ExportOptions::default(), 0).unwrap();
    let mut data = bundle.data.clone();
    data.transitions.push((data.states.len() as u32, [u32::MAX; 8]));
    let bytes = write_data(&bundle.manifest, &data).unwrap();
    assert!(matches!(load_bundle(bundle.manifest.clone(), &bytes, "data.bin"), Err(SearchError::InvalidScenario { .. })));
}
