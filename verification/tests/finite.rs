use infinite_chess::arena::enumerate::all_states;
use infinite_chess::arena::{Arena, ArenaBuilder};
use infinite_chess::coord::{signum_i16, Coord};
use infinite_chess::game::Game;
use infinite_chess::pieces::{Layout, Material, PieceKind, Turn};
use infinite_chess::region::Region;
use infinite_chess::rules::attacks::{build_white_occupancy, is_attacked_by_white, Occ};
use infinite_chess::rules::checkmate::{black_has_any_legal_move, is_checkmate_black_to_move, is_in_check};
use infinite_chess::rules::movegen::{successors, Scratch, Succ};
use infinite_chess::solve::buchi::{buchi, tempo_trap};
use infinite_chess::solve::reach::{checkmate_targets, reachability_white};
use infinite_chess::solve::safety::safety_trap;
use infinite_chess::state::{canonicalize, Packer};

fn one_rook() -> Material {
    Material::new().with_rooks(1)
}

fn sorted_states(v: &[Succ]) -> (Vec<u128>, bool) {
    let mut states: Vec<u128> = Vec::new();
    let mut sink = false;
    for s in v {
        match s {
            Succ::State(x) => states.push(*x),
            Succ::Sink => sink = true,
        }
    }
    states.sort();
    states.dedup();
    (states, sink)
}

#[test]
fn coord_norms_and_signs() {
    let c = Coord::new(-3, 2);
    assert_eq!(c.l_inf(), 3);
    assert_eq!(c.l1(), 5);
    assert_eq!(signum_i16(-7), -1);
    assert_eq!(signum_i16(0), 0);
    assert_eq!(signum_i16(4), 1);
    assert_eq!(Turn::Black.other(), Turn::White);
    assert_eq!(Turn::White.other(), Turn::Black);
}

#[test]
fn material_and_layout() {
    let m = Material::new().with_white_king(true).with_rooks(2).with_knights(1);
    assert_eq!(m.total_white(), 4);
    let l = Layout::from_material(&m);
    assert_eq!(l.slots, vec![PieceKind::King, PieceKind::Rook, PieceKind::Rook, PieceKind::Knight]);
    assert_eq!(l.total_white(), 4);
    let g = l.group(PieceKind::Rook).unwrap();
    assert_eq!((g.start, g.len), (1, 2));
    assert!(l.group(PieceKind::Queen).is_none());
    assert_eq!(l.groups.len(), 3);
}

#[test]
fn regions_number_squares_in_order() {
    let r = Region::linf(1);
    assert_eq!(r.size(), 9);
    assert_eq!(r.sq_of(Coord::new(0, 0)), Some(4));
    assert_eq!(r.coord_of(8), Coord::new(1, 1));
    assert_eq!(r.coord_of(0), Coord::new(-1, -1));
    assert!(!r.contains(Coord::new(2, 0)));
    let d = Region::l1(1);
    assert_eq!(d.size(), 5);
    assert_eq!(d.sq_of(Coord::new(0, 0)), Some(2));
    assert_eq!(d.sq_of(Coord::new(1, 1)), None);
    assert_eq!(Region::l1(2).size(), 13);
    assert_eq!(Region::linf(3).size(), 49);
}

#[test]
fn knight_distance_regions() {
    assert_eq!(Region::knight_distance(0).size(), 1);
    let r = Region::knight_distance(1);
    assert_eq!(r.size(), 9);
    assert!(r.contains(Coord::new(2, 1)));
    assert!(r.contains(Coord::new(-1, -2)));
    assert!(!r.contains(Coord::new(1, 1)));
    let r2 = Region::knight_distance(2);
    assert!(r2.contains(Coord::new(1, 1)));
    assert!(r2.contains(Coord::new(4, 2)));
    assert!(!r2.contains(Coord::new(5, 0)));
}

#[test]
fn packer_round_trip() {
    let p = Packer::new(9, 1);
    assert_eq!(p.bits_per_field(), 4);
    assert_eq!(p.captured_code(), 9);
    let st = p.pack(4, &[9]);
    assert_eq!(st, 4 + 9 * 16);
    let mut out = [0u16; 1];
    assert_eq!(p.unpack(st, &mut out), 4);
    assert_eq!(out, [9]);
    let q = Packer::new(48, 3);
    assert_eq!(q.bits_per_field(), 6);
    let st = q.pack(24, &[27, 48, 3]);
    let mut out = [0u16; 3];
    assert_eq!(q.unpack(st, &mut out), 24);
    assert_eq!(out, [27, 48, 3]);
    assert_eq!(Packer::new(0, 0).bits_per_field(), 1);
    assert_eq!(Packer::new(1, 0).bits_per_field(), 1);
    assert_eq!(Packer::new(2, 0).bits_per_field(), 2);
}

#[test]
fn canonicalize_sorts_each_group() {
    let layout = Layout::from_material(&Material::new().with_white_king(true).with_rooks(2).with_knights(2));
    let mut w = [7u16, 9, 3, 9, 1];
    canonicalize(&mut w, &layout);
    assert_eq!(w, [7, 3, 9, 1, 9]);
}

#[test]
fn pack_from_coords_uses_square_numbers() {
    let g = Game::new(Region::linf(1), one_rook());
    assert_eq!(g.region_size(), 9);
    assert_eq!(g.captured_code(), 9);
    assert_eq!(g.pack_from_coords(Coord::new(0, 0), &[Some(Coord::new(1, 1))]), 4 + 8 * 16);
    assert_eq!(g.pack_from_coords(Coord::new(0, 0), &[None]), 4 + 9 * 16);
    let two = Game::new(Region::linf(1), Material::new().with_rooks(2));
    let a = two.pack_from_coords(Coord::new(0, 0), &[Some(Coord::new(1, 1)), Some(Coord::new(-1, -1))]);
    let b = two.pack_from_coords(Coord::new(0, 0), &[Some(Coord::new(-1, -1)), Some(Coord::new(1, 1))]);
    assert_eq!(a, b);
    let g2 = Game::new(Region::linf(1), one_rook()).with_allow_pass(true).with_move_bound(Some(2));
    assert!(g2.allow_pass);
    assert_eq!(g2.move_bound, Some(2));
}

#[test]
fn occupancy_bits() {
    let mut o = Occ::new(100);
    assert!(!o.get(70));
    o.set(70);
    assert!(o.get(70));
    assert!(!o.get(69));
    o.clear(70);
    assert!(!o.get(70));
    let r = Region::linf(1);
    let occ = build_white_occupancy(&r, &[3, 9, 5], 9);
    assert!(occ.get(3) && occ.get(5));
    assert!(!occ.get(4) && !occ.get(8));
}

#[test]
fn rook_attacks_are_blocked() {
    let game = Game::new(Region::linf(3), Material::new().with_rooks(1).with_knights(1));
    let bk = game.region.sq_of(Coord::new(0, 0)).unwrap();
    let rook = game.region.sq_of(Coord::new(0, 3)).unwrap();
    let blocker = game.region.sq_of(Coord::new(0, 2)).unwrap();
    assert_eq!((bk, rook, blocker), (24, 27, 26));
    assert!(!is_in_check(&game, bk, &[rook, blocker]));
    assert!(is_in_check(&game, bk, &[rook, 49]));
    let occ = build_white_occupancy(&game.region, &[rook, blocker], 49);
    assert!(is_attacked_by_white(Coord::new(0, 1), &game.region, &game.layout, &[rook, blocker], 49, &occ) == false);
    assert!(is_attacked_by_white(Coord::new(1, 0), &game.region, &game.layout, &[rook, blocker], 49, &occ));
}

#[test]
fn black_successors_with_capture() {
    let game = Game::new(Region::linf(1), one_rook());
    let st = game.pack_from_coords(Coord::new(0, 0), &[Some(Coord::new(1, 1))]);
    let mut scratch = Scratch::new(1);
    let succ = successors(&game, Turn::Black, st, &mut scratch);
    assert_eq!(scratch.whites(), &[8]);
    let (states, sink) = sorted_states(&succ);
    assert_eq!(states, vec![128, 129, 131, 152]);
    assert!(!sink);
    assert!(black_has_any_legal_move(&game, st, &mut scratch));
    assert!(!is_checkmate_black_to_move(&game, st, &mut scratch));
}

#[test]
fn white_successors_and_move_bound() {
    let game = Game::new(Region::linf(1), one_rook());
    let st = game.pack_from_coords(Coord::new(0, 0), &[Some(Coord::new(1, 1))]);
    let mut scratch = Scratch::new(1);
    let succ = successors(&game, Turn::White, st, &mut scratch);
    let (states, sink) = sorted_states(&succ);
    assert_eq!(states, vec![36, 84, 100, 116]);
    assert!(sink);
    let bounded = Game::new(Region::linf(1), one_rook()).with_move_bound(Some(1));
    let succ = successors(&bounded, Turn::White, st, &mut scratch);
    let (states, sink) = sorted_states(&succ);
    assert_eq!(states, vec![84, 116]);
    assert!(sink);
    let passing = Game::new(Region::linf(1), one_rook()).with_allow_pass(true);
    let succ = successors(&passing, Turn::White, st, &mut scratch);
    let (states, _) = sorted_states(&succ);
    assert!(states.contains(&st));
    assert_eq!(states.len(), 5);
}

#[test]
fn corner_mate_in_a_region() {
    // Black king in the corner (-1,-1), rooks on (1,-1) and (1,0): the king is attacked
    // along the bottom rank and every flight square is covered or off the region but
    // covered as well.
    let game = Game::new(Region::linf(1), Material::new().with_rooks(2));
    let st = game.pack_from_coords(Coord::new(-1, -1), &[Some(Coord::new(1, -1)), Some(Coord::new(1, 0))]);
    let mut scratch = Scratch::new(2);
    let bk = 0u16;
    assert!(is_in_check(&game, bk, &[6, 7]));
    // (-1,0) is attacked by the rook on (1,0); (0,-1) and (0,0) likewise; off-region squares
    // (-2,*) and (*,-2) next to the king are free, so Black escapes to the sink.
    assert!(black_has_any_legal_move(&game, st, &mut scratch));
    assert!(!is_checkmate_black_to_move(&game, st, &mut scratch));
}

#[test]
fn enumeration_and_arena() {
    let game = Game::new(Region::linf(1), one_rook());
    let states = all_states(&game);
    assert_eq!(states.len(), 9 * 9);
    let arena: Arena = ArenaBuilder::new(game).enumerate_all().unwrap();
    assert_eq!(arena.len(), 2 + 2 * 81);
    assert!(arena.is_sink(0) && arena.is_sink(1) && !arena.is_sink(2));
    assert_eq!(arena.nodes[0].succ, vec![0]);
    assert_eq!(arena.nodes[1].succ, vec![1]);
    for (id, node) in arena.nodes.iter().enumerate().skip(2) {
        assert_eq!(node.turn, if id % 2 == 0 { Turn::Black } else { Turn::White });
        for w in node.succ.windows(2) {
            assert!(w[0] < w[1]);
        }
        for &s in &node.succ {
            assert!(arena.nodes[s].pred.contains(&id));
        }
    }
}

#[test]
fn safety_tempo_and_reachability() {
    let game = Game::new(Region::linf(1), Material::new().with_rooks(2)).with_allow_pass(true);
    let arena = ArenaBuilder::new(game).enumerate_all().unwrap();
    let n = arena.len();
    let safe = safety_trap(&arena);
    assert_eq!(safe.len(), n);
    assert!(!safe[0] && !safe[1]);
    for id in 0..n {
        if safe[id] {
            let succ = &arena.nodes[id].succ;
            if arena.nodes[id].turn == Turn::White {
                assert!(succ.iter().any(|&s| safe[s]));
            } else {
                assert!(succ.iter().all(|&s| safe[s]));
            }
        }
    }
    let tempo = tempo_trap(&arena, &safe);
    for id in 0..n {
        assert!(!tempo[id] || safe[id]);
    }
    let none = buchi(&arena, &safe, &vec![false; n]);
    assert!(none.iter().all(|&b| !b));
    let mates = checkmate_targets(&arena);
    for id in 0..n {
        if mates[id] {
            assert_eq!(arena.nodes[id].turn, Turn::Black);
            assert!(arena.nodes[id].succ.is_empty());
        }
    }
    let win = reachability_white(&arena, &mates);
    for id in 0..n {
        assert!(!mates[id] || win[id]);
    }
}
