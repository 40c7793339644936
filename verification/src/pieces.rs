//! Piece kinds, material and the slot layout of the region-based finite-slice model.
use vstd::prelude::*;

verus! {

/// The kinds of White's pieces.
#[derive(Copy, Clone, Debug, Eq, PartialEq, Hash, Ord, PartialOrd, Structural)]
pub enum PieceKind {
    King,
    Queen,
    Rook,
    Bishop,
    Knight,
}

/// The side to move.
#[derive(Copy, Clone, Debug, Eq, PartialEq, Hash, Structural)]
pub enum Turn {
    Black,
    White,
}

impl Turn {
    /// The opposite side.
    pub fn other(self) -> (t: Turn)
        ensures
            t != self,
    {
        match self {
            Turn::Black => Turn::White,
            Turn::White => Turn::Black,
        }
    }
}

/// White's piece multiset.
///
/// Capturable pieces are queens, rooks, bishops and knights. A white king, if present, is always
/// on the board and cannot be captured.
#[derive(Clone, Debug)]
pub struct Material {
    pub white_king: bool,
    pub queens: u8,
    pub rooks: u8,
    pub bishops: u8,
    pub knights: u8,
}

impl Material {
    /// The number of white pieces, king included.
    pub open spec fn total_spec(&self) -> nat {
        (if self.white_king { 1nat } else { 0nat }) + self.queens as nat + self.rooks as nat
            + self.bishops as nat + self.knights as nat
    }

    /// No pieces at all.
    pub fn new() -> (m: Material)
        ensures
            !m.white_king && m.queens == 0 && m.rooks == 0 && m.bishops == 0 && m.knights == 0,
    {
        Material { white_king: false, queens: 0, rooks: 0, bishops: 0, knights: 0 }
    }

    pub fn with_white_king(self, enabled: bool) -> (m: Material)
        ensures
            m == (Material { white_king: enabled, ..self }),
    {
        Material { white_king: enabled, ..self }
    }

    pub fn with_queens(self, n: u8) -> (m: Material)
        ensures
            m == (Material { queens: n, ..self }),
    {
        Material { queens: n, ..self }
    }

    pub fn with_rooks(self, n: u8) -> (m: Material)
        ensures
            m == (Material { rooks: n, ..self }),
    {
        Material { rooks: n, ..self }
    }

    pub fn with_bishops(self, n: u8) -> (m: Material)
        ensures
            m == (Material { bishops: n, ..self }),
    {
        Material { bishops: n, ..self }
    }

    pub fn with_knights(self, n: u8) -> (m: Material)
        ensures
            m == (Material { knights: n, ..self }),
    {
        Material { knights: n, ..self }
    }

    /// The number of white pieces, king included.
    pub fn total_white(&self) -> (n: usize)
        ensures
            n == self.total_spec(),
    {
        (if self.white_king { 1usize } else { 0usize }) + self.queens as usize + self.rooks as usize
            + self.bishops as usize + self.knights as usize
    }
}

/// A run of slots `start..start + len` holding pieces of one kind.
#[derive(Clone, Debug)]
pub struct Group {
    pub kind: PieceKind,
    pub start: usize,
    pub len: usize,
}

/// A concrete slot layout: piece kinds in a fixed order, with the runs of indistinguishable
/// pieces as groups.
#[derive(Clone, Debug)]
pub struct Layout {
    pub slots: Vec<PieceKind>,
    pub groups: Vec<Group>,
}

/// `s` followed by `len` copies of `kind`.
pub open spec fn push_run(s: Seq<PieceKind>, kind: PieceKind, len: nat) -> Seq<PieceKind> {
    s + Seq::new(len, |i: int| kind)
}

/// `gs` followed by the group `kind` at `start` of length `len`, when `len` is positive.
pub open spec fn push_group_spec(gs: Seq<Group>, kind: PieceKind, start: nat, len: nat) -> Seq<Group> {
    if len == 0 {
        gs
    } else {
        gs.push(Group { kind, start: start as usize, len: len as usize })
    }
}

/// The slot kinds of a material: the king first, then queens, rooks, bishops and knights.
pub open spec fn material_slots(m: Material) -> Seq<PieceKind> {
    let k: nat = if m.white_king { 1 } else { 0 };
    push_run(
        push_run(
            push_run(push_run(push_run(Seq::empty(), PieceKind::King, k), PieceKind::Queen, m.queens as nat), PieceKind::Rook, m.rooks as nat),
            PieceKind::Bishop,
            m.bishops as nat,
        ),
        PieceKind::Knight,
        m.knights as nat,
    )
}

/// The groups of a material: one per kind present, in slot order.
pub open spec fn material_groups(m: Material) -> Seq<Group> {
    let k: nat = if m.white_king { 1 } else { 0 };
    let q = m.queens as nat;
    let r = m.rooks as nat;
    let b = m.bishops as nat;
    let n = m.knights as nat;
    push_group_spec(
        push_group_spec(
            push_group_spec(
                push_group_spec(push_group_spec(Seq::empty(), PieceKind::King, 0, k), PieceKind::Queen, k, q),
                PieceKind::Rook,
                k + q,
                r,
            ),
            PieceKind::Bishop,
            k + q + r,
            b,
        ),
        PieceKind::Knight,
        k + q + r + b,
        n,
    )
}

/// Every group lies inside the slots and covers slots of its own kind.
pub open spec fn groups_ok(slots: Seq<PieceKind>, groups: Seq<Group>) -> bool {
    forall|g: int| 0 <= g < groups.len() ==> {
        &&& #[trigger] groups[g].len > 0
        &&& groups[g].start + groups[g].len <= slots.len()
        &&& forall|i: int| groups[g].start <= i < groups[g].start + groups[g].len ==> slots[i] == groups[g].kind
    }
}

impl Layout {
    /// The layout is well formed: each group is a non-empty run of its kind inside the slots.
    pub open spec fn wf(&self) -> bool {
        groups_ok(self.slots@, self.groups@)
    }

    /// The layout of a material: the king, queens, rooks, bishops and knights in that order,
    /// with one group per kind present.
    pub fn from_material(mat: &Material) -> (l: Layout)
        ensures
            l.slots@ == material_slots(*mat),
            l.groups@ == material_groups(*mat),
            l.wf(),
    {
        let mut slots: Vec<PieceKind> = Vec::new();
        let mut groups: Vec<Group> = Vec::new();
        let k: usize = if mat.white_king { 1 } else { 0 };
        push_group(PieceKind::King, k, &mut slots, &mut groups);
        push_group(PieceKind::Queen, mat.queens as usize, &mut slots, &mut groups);
        push_group(PieceKind::Rook, mat.rooks as usize, &mut slots, &mut groups);
        push_group(PieceKind::Bishop, mat.bishops as usize, &mut slots, &mut groups);
        push_group(PieceKind::Knight, mat.knights as usize, &mut slots, &mut groups);
        Layout { slots, groups }
    }

    /// A copy of the layout.
    pub fn duplicate(&self) -> (l: Layout)
        ensures
            l.slots@ == self.slots@,
            l.groups@ == self.groups@,
    {
        let mut slots: Vec<PieceKind> = Vec::new();
        let mut i: usize = 0;
        while i < self.slots.len()
            invariant
                i <= self.slots@.len(),
                slots@ == self.slots@.subrange(0, i as int),
            decreases self.slots@.len() - i,
        {
            slots.push(self.slots[i]);
            i += 1;
            assert(slots@ =~= self.slots@.subrange(0, i as int));
        }
        let mut groups: Vec<Group> = Vec::new();
        let mut j: usize = 0;
        while j < self.groups.len()
            invariant
                j <= self.groups@.len(),
                groups@ == self.groups@.subrange(0, j as int),
            decreases self.groups@.len() - j,
        {
            let g = &self.groups[j];
            groups.push(Group { kind: g.kind, start: g.start, len: g.len });
            j += 1;
            assert(groups@ =~= self.groups@.subrange(0, j as int));
        }
        assert(slots@ =~= self.slots@);
        assert(groups@ =~= self.groups@);
        Layout { slots, groups }
    }

    /// The number of white slots.
    pub fn total_white(&self) -> (n: usize)
        ensures
            n == self.slots@.len(),
    {
        self.slots.len()
    }

    /// The first group of the given kind, if any.
    pub fn group(&self, kind: PieceKind) -> (r: Option<&Group>)
        ensures
            match r {
                Some(g) => exists|i: int|
                    0 <= i < self.groups@.len() && self.groups@[i] == *g && g.kind == kind && forall|j: int|
                        0 <= j < i ==> (#[trigger] self.groups@[j]).kind != kind,
                None => forall|i: int| 0 <= i < self.groups@.len() ==> (#[trigger] self.groups@[i]).kind != kind,
            },
    {
        let mut i: usize = 0;
        while i < self.groups.len()
            invariant
                i <= self.groups@.len(),
                forall|j: int| 0 <= j < i ==> (#[trigger] self.groups@[j]).kind != kind,
            decreases self.groups@.len() - i,
        {
            if self.groups[i].kind == kind {
                return Some(&self.groups[i]);
            }
            i += 1;
        }
        None
    }
}

/// Appends a group of `len` pieces of `kind`, if `len` is positive.
fn push_group(kind: PieceKind, len: usize, slots: &mut Vec<PieceKind>, groups: &mut Vec<Group>)
    requires
        old(slots)@.len() + len <= usize::MAX,
        groups_ok(old(slots)@, old(groups)@),
    ensures
        final(slots)@ == push_run(old(slots)@, kind, len as nat),
        final(groups)@ == push_group_spec(old(groups)@, kind, old(slots)@.len(), len as nat),
        groups_ok(final(slots)@, final(groups)@),
{
    if len == 0 {
        assert(slots@ =~= push_run(old(slots)@, kind, 0));
        return;
    }
    let start = slots.len();
    let mut i: usize = 0;
    while i < len
        invariant
            i <= len,
            start == old(slots)@.len(),
            start + len <= usize::MAX,
            slots@ == push_run(old(slots)@, kind, i as nat),
        decreases len - i,
    {
        slots.push(kind);
        i += 1;
        assert(slots@ =~= push_run(old(slots)@, kind, i as nat));
    }
    groups.push(Group { kind, start, len });
    assert forall|g: int| 0 <= g < groups@.len() implies {
        &&& #[trigger] groups@[g].len > 0
        &&& groups@[g].start + groups@[g].len <= slots@.len()
        &&& forall|i: int| groups@[g].start <= i < groups@[g].start + groups@[g].len ==> slots@[i] == groups@[g].kind
    } by {
        if g < groups@.len() - 1 {
            assert(groups@[g] == old(groups)@[g]);
            assert forall|i: int| groups@[g].start <= i < groups@[g].start + groups@[g].len implies slots@[i] == groups@[g].kind by {
                assert(slots@[i] == old(slots)@[i]);
            }
        }
    }
}

} // verus!
