use vstd::prelude::*;

use std::ops::Range;

use crate::chess::piece::PieceKind;

verus! {

/// The slot kinds of a layout built from piece counts: `K, Q..., R..., B..., N...`.
pub open spec fn layout_kinds_spec(
    white_king: bool,
    queens: nat,
    rooks: nat,
    bishops: nat,
    knights: nat,
) -> Seq<PieceKind> {
    (if white_king { seq![PieceKind::King] } else { Seq::empty() })
        + Seq::new(queens, |i: int| PieceKind::Queen)
        + Seq::new(rooks, |i: int| PieceKind::Rook)
        + Seq::new(bishops, |i: int| PieceKind::Bishop)
        + Seq::new(knights, |i: int| PieceKind::Knight)
}

/// A layout built from counts has one slot per piece.
pub proof fn lemma_layout_kinds_len(white_king: bool, queens: nat, rooks: nat, bishops: nat, knights: nat)
    ensures
        layout_kinds_spec(white_king, queens, rooks, bishops, knights).len() == queens + rooks + bishops + knights
            + if white_king { 1nat } else { 0nat },
{
}

/// `runs` splits `kinds` into its maximal runs of identical kinds, in order.
pub open spec fn runs_valid(kinds: Seq<PieceKind>, runs: Seq<Range<usize>>) -> bool {
    &&& (kinds.len() == 0 <==> runs.len() == 0)
    &&& runs.len() > 0 ==> runs[0].start == 0 && runs.last().end == kinds.len()
    &&& forall|i: int| 0 <= i < runs.len() ==> #[trigger] runs[i].start < runs[i].end
    &&& forall|i: int, k: int| 0 <= i < k < runs.len() ==> #[trigger] runs[i].end <= #[trigger] runs[k].start
    &&& forall|i: int| 0 <= i < runs.len() - 1 ==> #[trigger] runs[i].end == runs[i + 1].start
    &&& forall|i: int, j: int|
        0 <= i < runs.len() && runs[i].start <= j < runs[i].end ==> #[trigger] kinds[j]
            == kinds[#[trigger] runs[i].start as int]
    &&& forall|i: int|
        0 <= i < runs.len() - 1 ==> kinds[#[trigger] runs[i].start as int] != kinds[runs[i
            + 1].start as int]
}

/// Appending the run `start..i` to a valid split of `kinds[..start]` gives a valid split of
/// `kinds[..i]`.
proof fn lemma_push_run(kinds: Seq<PieceKind>, runs: Seq<Range<usize>>, start: usize, i: usize)
    requires
        start < i <= kinds.len(),
        runs_valid(kinds.take(start as int), runs),
        forall|j: int| start <= j < i ==> #[trigger] kinds[j] == kinds[start as int],
        runs.len() > 0 ==> kinds[runs.last().start as int] != kinds[start as int],
    ensures
        runs_valid(kinds.take(i as int), runs.push(start..i)),
{
    let kt = kinds.take(i as int);
    let ko = kinds.take(start as int);
    let nr = runs.push(start..i);
    assert forall|r: int| 0 <= r < nr.len() implies #[trigger] nr[r].start < nr[r].end by {
        if r < runs.len() {
            assert(nr[r] == runs[r]);
        }
    }
    assert forall|a: int, k: int| 0 <= a < k < nr.len() implies #[trigger] nr[a].end
        <= #[trigger] nr[k].start by {
        assert(nr[a] == runs[a]);
        if k < runs.len() {
            assert(nr[k] == runs[k]);
        } else if a < runs.len() - 1 {
            assert(runs[a].end <= runs[runs.len() - 1].start);
        }
    }
    assert forall|r: int, j: int|
        0 <= r < nr.len() && nr[r].start <= j < nr[r].end implies #[trigger] kt[j]
            == kt[#[trigger] nr[r].start as int] by {
        if r < runs.len() {
            assert(nr[r] == runs[r]);
            assert(ko[j] == ko[runs[r].start as int]);
        }
    }
    assert forall|r: int| 0 <= r < nr.len() - 1 implies kt[#[trigger] nr[r].start as int]
        != kt[nr[r + 1].start as int] by {
        assert(nr[r] == runs[r]);
        if r < runs.len() - 1 {
            assert(nr[r + 1] == runs[r + 1]);
            assert(ko[runs[r].start as int] != ko[runs[r + 1].start as int]);
        }
    }
    assert forall|r: int| 0 <= r < nr.len() - 1 implies #[trigger] nr[r].end == nr[r + 1].start by {
        assert(nr[r] == runs[r]);
        if r < runs.len() - 1 {
            assert(nr[r + 1] == runs[r + 1]);
        }
    }
}

/// Computes the maximal runs of identical kinds.
fn compute_runs(kinds: &Vec<PieceKind>) -> (runs: Vec<Range<usize>>)
    ensures
        runs_valid(kinds@, runs@),
{
    let len = kinds.len();
    let mut runs: Vec<Range<usize>> = Vec::new();
    if len == 0 {
        return runs;
    }
    let mut start: usize = 0;
    let mut i: usize = 1;
    while i < len
        invariant
            len == kinds@.len(),
            1 <= i <= len,
            start < i,
            forall|j: int| start <= j < i ==> #[trigger] kinds@[j] == kinds@[start as int],
            runs_valid(kinds@.take(start as int), runs@),
            runs@.len() > 0 ==> kinds@[runs@.last().start as int] != kinds@[start as int],
        decreases len - i,
    {
        if kinds[i] != kinds[start] {
            proof {
                lemma_push_run(kinds@, runs@, start, i);
            }
            runs.push(start..i);
            start = i;
        }
        i += 1;
    }
    proof {
        lemma_push_run(kinds@, runs@, start, len);
        assert(kinds@.take(len as int) =~= kinds@);
    }
    runs.push(start..len);
    runs
}

/// A fixed list of piece kinds ("slots") plus the contiguous runs of identical pieces.
///
/// Identical pieces are kept contiguous so that positions can be canonicalised by sorting the
/// squares within each run.
#[derive(Debug)]
pub struct PieceLayout {
    kinds: Vec<PieceKind>,
    identical_runs: Vec<Range<usize>>,
    white_king_index: Option<usize>,
}

impl PieceLayout {
    /// The slot kinds.
    pub closed spec fn kinds_spec(&self) -> Seq<PieceKind> {
        self.kinds@
    }

    /// The runs of identical kinds.
    pub closed spec fn runs_spec(&self) -> Seq<Range<usize>> {
        self.identical_runs@
    }

    /// The index of the white king, if there is one.
    pub closed spec fn king_index_spec(&self) -> Option<usize> {
        self.white_king_index
    }

    /// Well-formedness: the runs are the maximal runs of the kinds, and the white king, when
    /// present, is the first slot and the only king.
    #[verifier::type_invariant]
    pub open spec fn wf(&self) -> bool {
        &&& runs_valid(self.kinds_spec(), self.runs_spec())
        &&& self.king_index_spec() == (if self.kinds_spec().len() > 0 && self.kinds_spec()[0]
            == PieceKind::King {
            Some(0usize)
        } else {
            None
        })
        &&& forall|i: int|
            0 < i < self.kinds_spec().len() ==> #[trigger] self.kinds_spec()[i] != PieceKind::King
    }

    /// Builds the layout `K, Q..., R..., B..., N...` from piece counts.
    pub fn from_counts(
        white_king: bool,
        queens: usize,
        rooks: usize,
        bishops: usize,
        knights: usize,
    ) -> (l: PieceLayout)
        ensures
            l.kinds_spec() == layout_kinds_spec(
                white_king,
                queens as nat,
                rooks as nat,
                bishops as nat,
                knights as nat,
            ),
            l.wf(),
    {
        let mut kinds: Vec<PieceKind> = Vec::new();
        let mut white_king_index: Option<usize> = None;
        if white_king {
            white_king_index = Some(0);
            kinds.push(PieceKind::King);
        }
        let ghost k0 = kinds@;
        push_copies(&mut kinds, PieceKind::Queen, queens);
        let ghost k1 = kinds@;
        push_copies(&mut kinds, PieceKind::Rook, rooks);
        let ghost k2 = kinds@;
        push_copies(&mut kinds, PieceKind::Bishop, bishops);
        let ghost k3 = kinds@;
        push_copies(&mut kinds, PieceKind::Knight, knights);
        proof {
            assert(kinds@ =~= layout_kinds_spec(
                white_king,
                queens as nat,
                rooks as nat,
                bishops as nat,
                knights as nat,
            ));
            assert forall|i: int| 0 < i < kinds@.len() implies #[trigger] kinds@[i] != PieceKind::King by {
                if i < k1.len() {
                    assert(kinds@[i] == k1[i]);
                } else if i < k2.len() {
                    assert(kinds@[i] == k2[i]);
                } else if i < k3.len() {
                    assert(kinds@[i] == k3[i]);
                }
            }
            if !white_king && kinds@.len() > 0 {
                if k1.len() > 0 {
                    assert(kinds@[0] == k1[0]);
                } else if k2.len() > 0 {
                    assert(kinds@[0] == k2[0]);
                } else if k3.len() > 0 {
                    assert(kinds@[0] == k3[0]);
                }
            }
        }
        let identical_runs = compute_runs(&kinds);
        PieceLayout { kinds, identical_runs, white_king_index }
    }

    /// Number of slots.
    pub fn piece_count(&self) -> (n: usize)
        ensures
            n == self.kinds_spec().len(),
    {
        self.kinds.len()
    }

    /// Kind of slot `index`.
    pub fn kind(&self, index: usize) -> (k: PieceKind)
        requires
            index < self.kinds_spec().len(),
        ensures
            k == self.kinds_spec()[index as int],
    {
        self.kinds[index]
    }

    /// All slot kinds.
    pub fn kinds(&self) -> (s: &[PieceKind])
        ensures
            s@ == self.kinds_spec(),
    {
        self.kinds.as_slice()
    }

    /// The runs of identical kinds.
    pub fn identical_runs(&self) -> (s: &[Range<usize>])
        ensures
            s@ == self.runs_spec(),
    {
        self.identical_runs.as_slice()
    }

    /// The slot of the white king, if there is one.
    pub fn white_king_index(&self) -> (k: Option<usize>)
        ensures
            k == self.king_index_spec(),
    {
        self.white_king_index
    }

}

impl Clone for PieceLayout {
    /// A copy of this layout.
    fn clone(&self) -> (l: PieceLayout)
        ensures
            l.kinds_spec() == self.kinds_spec(),
            l.runs_spec() == self.runs_spec(),
            l.king_index_spec() == self.king_index_spec(),
    {
        proof {
            use_type_invariant(self);
        }
        let mut kinds: Vec<PieceKind> = Vec::new();
        let mut i: usize = 0;
        while i < self.kinds.len()
            invariant
                i <= self.kinds@.len(),
                kinds@ =~= self.kinds@.take(i as int),
            decreases self.kinds@.len() - i,
        {
            kinds.push(self.kinds[i]);
            i += 1;
        }
        let mut runs: Vec<Range<usize>> = Vec::new();
        let mut j: usize = 0;
        while j < self.identical_runs.len()
            invariant
                j <= self.identical_runs@.len(),
                runs@ =~= self.identical_runs@.take(j as int),
            decreases self.identical_runs@.len() - j,
        {
            let r = &self.identical_runs[j];
            runs.push(r.start..r.end);
            j += 1;
        }
        proof {
            assert(kinds@ =~= self.kinds@);
            assert(runs@ =~= self.identical_runs@);
        }
        PieceLayout { kinds, identical_runs: runs, white_king_index: self.white_king_index }
    }
}

/// Appends `count` copies of `kind`.
fn push_copies(v: &mut Vec<PieceKind>, kind: PieceKind, count: usize)
    ensures
        final(v)@ == old(v)@ + Seq::new(count as nat, |i: int| kind),
{
    let mut i: usize = 0;
    while i < count
        invariant
            i <= count,
            v@ =~= old(v)@ + Seq::new(i as nat, |k: int| kind),
        decreases count - i,
    {
        v.push(kind);
        i += 1;
    }
}

} // verus!
