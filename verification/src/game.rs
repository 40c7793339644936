//! A finite-slice game: a region, White's material and the rules' switches.
use vstd::prelude::*;

use crate::coord::Coord;
use crate::pieces::{Layout, Material, PieceKind, material_slots};
use crate::region::{sq_index, Region};
use crate::state::{bits_for, canonical_spec, canonicalize, lemma_canonical_elements, PackedState, Packer};

verus! {

/// A game on a finite region of the board.
#[derive(Clone, Debug)]
pub struct Game {
    pub region: Region,
    pub layout: Layout,
    pub packer: Packer,
    pub allow_pass: bool,
    pub move_bound: Option<u16>,
}

/// The code of a white piece: its square number, or the captured code.
pub open spec fn code_of(squares: Seq<Coord>, c: Option<Coord>, captured: u16) -> u16 {
    match c {
        Some(p) => sq_index(squares, p) as u16,
        None => captured,
    }
}

/// Two games with the same region, layout, packer and switches.
pub open spec fn same_game(a: Game, b: Game) -> bool {
    &&& a.region@ == b.region@
    &&& a.layout.slots@ == b.layout.slots@
    &&& a.layout.groups@ == b.layout.groups@
    &&& a.packer == b.packer
    &&& a.allow_pass == b.allow_pass
    &&& a.move_bound == b.move_bound
}

impl Game {
    /// A copy of the game.
    pub fn duplicate(&self) -> (g: Game)
        ensures
            same_game(*self, g),
            self.wf() ==> g.wf(),
    {
        let region = self.region.duplicate();
        let layout = self.layout.duplicate();
        let packer = Packer {
            region_size: self.packer.region_size,
            n_white: self.packer.n_white,
            bits: self.packer.bits,
            mask: self.packer.mask,
        };
        Game { region, layout, packer, allow_pass: self.allow_pass, move_bound: self.move_bound }
    }

    /// The parts agree: the packer numbers the region's squares and has one field per slot.
    pub open spec fn wf(&self) -> bool {
        &&& self.region.wf()
        &&& self.layout.wf()
        &&& self.packer.wf()
        &&& self.packer.region_size == self.region@.len()
        &&& self.packer.n_white == self.layout.slots@.len()
    }

    /// The game of a region and a material, without passing and without a move bound; the
    /// packed state must fit in 128 bits.
    pub fn new(region: Region, material: Material) -> (g: Game)
        requires
            region.wf(),
            (1 + material.total_spec()) * bits_for(region@.len()) <= 128,
        ensures
            g.wf(),
            g.region == region,
            g.layout.slots@ == material_slots(material),
            crate::arena::enumerate::groups_in_order(g.layout.groups@),
            !g.allow_pass,
            g.move_bound is None,
    {
        let layout = Layout::from_material(&material);
        let n = layout.total_white();
        proof {
            assert(material_slots(material).len() == material.total_spec());
            crate::arena::enumerate::lemma_material_groups_in_order(material);
        }
        let size = region.size();
        let packer = Packer::new(size as u16, n);
        Game { region, layout, packer, allow_pass: false, move_bound: None }
    }

    pub fn with_allow_pass(self, allow: bool) -> (g: Game)
        ensures
            g == (Game { allow_pass: allow, ..self }),
    {
        Game { allow_pass: allow, ..self }
    }

    pub fn with_move_bound(self, bound: Option<u16>) -> (g: Game)
        ensures
            g == (Game { move_bound: bound, ..self }),
    {
        Game { move_bound: bound, ..self }
    }

    /// The number of squares of the region.
    pub fn region_size(&self) -> (n: u16)
        ensures
            n == self.packer.region_size,
    {
        self.packer.region_size
    }

    /// The code of a captured piece.
    pub fn captured_code(&self) -> (c: u16)
        ensures
            c == self.packer.region_size,
    {
        self.packer.captured_code()
    }

    /// Packs a state given by coordinates: the black king, and for each slot the square of its
    /// piece or `None` when captured. Identical pieces are put in canonical order.
    ///
    /// Every coordinate must be in the region, and a white king cannot be captured.
    pub fn pack_from_coords(&self, bk: Coord, whites: &[Option<Coord>]) -> (st: PackedState)
        requires
            self.wf(),
            whites@.len() == self.layout.slots@.len(),
            self.region@.contains(bk),
            forall|i: int| 0 <= i < whites@.len() ==> match #[trigger] whites@[i] {
                Some(c) => self.region@.contains(c),
                None => self.layout.slots@[i] != PieceKind::King,
            },
        ensures
            st == self.packer.pack_spec(
                sq_index(self.region@, bk) as u16,
                canonical_spec(
                    Seq::new(whites@.len(), |i: int| code_of(self.region@, whites@[i], self.packer.region_size)),
                    self.layout,
                ),
            ),
    {
        let bk_sq = match self.region.sq_of(bk) {
            Some(sq) => sq,
            None => {
                proof {
                    assert(false);
                }
                0
            },
        };
        let cap = self.captured_code();
        let mut codes: Vec<u16> = Vec::new();
        let mut i: usize = 0;
        while i < whites.len()
            invariant
                self.wf(),
                cap == self.packer.region_size,
                i <= whites@.len() == self.layout.slots@.len(),
                forall|k: int| 0 <= k < whites@.len() ==> match #[trigger] whites@[k] {
                    Some(c) => self.region@.contains(c),
                    None => self.layout.slots@[k] != PieceKind::King,
                },
                codes@.len() == i,
                forall|k: int| 0 <= k < i ==> #[trigger] codes@[k] == code_of(self.region@, whites@[k], cap),
                forall|k: int| 0 <= k < i ==> #[trigger] codes@[k] <= cap,
            decreases whites@.len() - i,
        {
            match whites[i] {
                None => {
                    codes.push(cap);
                },
                Some(c) => {
                    let sq = match self.region.sq_of(c) {
                        Some(sq) => sq,
                        None => {
                            proof {
                                assert(whites@[i as int] == Some(c));
                                assert(false);
                            }
                            0
                        },
                    };
                    codes.push(sq);
                },
            }
            i += 1;
        }
        let ghost raw = codes@;
        proof {
            assert(raw =~= Seq::new(whites@.len(), |k: int| code_of(self.region@, whites@[k], self.packer.region_size)));
        }
        canonicalize(codes.as_mut_slice(), &self.layout);
        proof {
            let bounded = |x: u16| x <= cap;
            assert forall|g: int| 0 <= g < self.layout.groups@.len() implies #[trigger] self.layout.groups@[g].start
                + self.layout.groups@[g].len <= raw.len() by {
                assert(self.layout.groups@[g].len > 0);
            }
            assert forall|j: int| 0 <= j < raw.len() implies #[trigger] bounded(raw[j]) by {}
            lemma_canonical_elements(raw, self.layout.groups@, self.layout.groups@.len(), bounded);
            assert(codes@ == canonical_spec(raw, self.layout));
            assert forall|j: int| 0 <= j < codes@.len() implies #[trigger] codes@[j] <= self.packer.region_size by {
                assert(bounded(codes@[j]));
            }
        }
        self.packer.pack(bk_sq, codes.as_slice())
    }
}

} // verus!
