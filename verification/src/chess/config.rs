//! Plain scenario configuration: a name, bounds and a piece layout.

use vstd::prelude::*;

use crate::chess::layout::PieceLayout;
use crate::chess::piece::PieceKind;
use crate::chess::rules::Rules;
use crate::scenario::text::{decimal_nat, push_decimal_u64, push_str_chars, string_from_chars};

verus! {

/// Scenario configuration.
#[derive(Debug, Clone)]
pub struct ScenarioConfig {
    pub name: &'static str,
    /// L∞ bound for enumerating candidate black-to-move positions.
    pub bound: i32,
    /// Maximum distance a sliding piece may move in a single white move.
    pub move_bound: i32,
    /// Whether White may pass (gain tempo) on her move.
    pub white_can_pass: bool,
    /// Remove stalemates from the candidate set.
    pub remove_stalemates: bool,
    pub layout: PieceLayout,
}

/// The kinds of `k` with the length of each maximal run of equal kinds, in order.
pub open spec fn kind_runs(k: Seq<PieceKind>) -> Seq<(PieceKind, nat)>
    decreases k.len(),
{
    if k.len() == 0 {
        Seq::empty()
    } else {
        let r = kind_runs(k.drop_last());
        let x = k.last();
        if r.len() > 0 && r.last().0 == x {
            r.update(r.len() - 1, (x, r.last().1 + 1))
        } else {
            r.push((x, 1nat))
        }
    }
}

/// The name of a piece kind.
pub open spec fn kind_name(k: PieceKind) -> Seq<char> {
    match k {
        PieceKind::King => "King"@,
        PieceKind::Queen => "Queen"@,
        PieceKind::Rook => "Rook"@,
        PieceKind::Bishop => "Bishop"@,
        PieceKind::Knight => "Knight"@,
    }
}

/// `Kind` followed by `x` and the count.
pub open spec fn run_text(p: (PieceKind, nat)) -> Seq<char> {
    kind_name(p.0) + seq!['x'] + decimal_nat(p.1)
}

/// The run texts joined by `", "`.
pub open spec fn summary_text(r: Seq<(PieceKind, nat)>) -> Seq<char>
    decreases r.len(),
{
    if r.len() == 0 {
        Seq::empty()
    } else if r.len() == 1 {
        run_text(r[0])
    } else {
        summary_text(r.drop_last()) + ", "@ + run_text(r.last())
    }
}

fn push_kind_name(v: &mut Vec<char>, k: PieceKind)
    ensures
        final(v)@ == old(v)@ + kind_name(k),
{
    match k {
        PieceKind::King => push_str_chars(v, "King"),
        PieceKind::Queen => push_str_chars(v, "Queen"),
        PieceKind::Rook => push_str_chars(v, "Rook"),
        PieceKind::Bishop => push_str_chars(v, "Bishop"),
        PieceKind::Knight => push_str_chars(v, "Knight"),
    }
}

impl ScenarioConfig {
    pub fn new(
        name: &'static str,
        bound: i32,
        move_bound: i32,
        white_can_pass: bool,
        remove_stalemates: bool,
        layout: PieceLayout,
    ) -> (c: ScenarioConfig)
        ensures
            c.name == name,
            c.bound == bound,
            c.move_bound == move_bound,
            c.white_can_pass == white_can_pass,
            c.remove_stalemates == remove_stalemates,
            c.layout == layout,
    {
        ScenarioConfig { name, bound, move_bound, white_can_pass, remove_stalemates, layout }
    }

    /// The runs of equal piece kinds with their lengths, in layout order.
    pub fn piece_runs(&self) -> (r: Vec<(PieceKind, usize)>)
        ensures
            r@.len() == kind_runs(self.layout.kinds_spec()).len(),
            forall|i: int| 0 <= i < r@.len() ==> (#[trigger] r@[i]).0 == kind_runs(self.layout.kinds_spec())[i].0
                && r@[i].1 as nat == kind_runs(self.layout.kinds_spec())[i].1,
    {
        let kinds = self.layout.kinds();
        let mut counts: Vec<(PieceKind, usize)> = Vec::new();
        let mut i: usize = 0;
        while i < kinds.len()
            invariant
                i <= kinds@.len(),
                kinds@ == self.layout.kinds_spec(),
                counts@.len() == kind_runs(kinds@.take(i as int)).len(),
                forall|j: int| 0 <= j < counts@.len() ==> (#[trigger] counts@[j]).0 == kind_runs(kinds@.take(i as int))[j].0
                    && counts@[j].1 as nat == kind_runs(kinds@.take(i as int))[j].1 && counts@[j].1 <= i,
            decreases kinds@.len() - i,
        {
            let k = kinds[i];
            proof {
                assert(kinds@.take(i as int + 1).drop_last() =~= kinds@.take(i as int));
                assert(kinds@.take(i as int + 1).last() == k);
            }
            let n = counts.len();
            if n > 0 && counts[n - 1].0 == k {
                let c = counts[n - 1].1;
                counts.set(n - 1, (k, c + 1));
            } else {
                counts.push((k, 1));
            }
            i += 1;
        }
        proof {
            assert(kinds@.take(kinds@.len() as int) =~= kinds@);
        }
        counts
    }

    /// A compact, deterministic description of the pieces: `Kindxcount` per run of equal
    /// kinds, joined by `", "`.
    pub fn piece_summary(&self) -> (s: String)
        ensures
            s@ == summary_text(kind_runs(self.layout.kinds_spec())),
    {
        let runs = self.piece_runs();
        let ghost r = kind_runs(self.layout.kinds_spec());
        let mut v: Vec<char> = Vec::new();
        let mut i: usize = 0;
        while i < runs.len()
            invariant
                i <= runs@.len(),
                runs@.len() == r.len(),
                forall|j: int| 0 <= j < runs@.len() ==> (#[trigger] runs@[j]).0 == r[j].0 && runs@[j].1 as nat == r[j].1,
                v@ == summary_text(r.take(i as int)),
            decreases runs@.len() - i,
        {
            if i > 0 {
                push_str_chars(&mut v, ", ");
            }
            let (k, c) = runs[i];
            push_kind_name(&mut v, k);
            v.push('x');
            push_decimal_u64(&mut v, c as u64);
            proof {
                let t1 = r.take(i as int + 1);
                assert(t1.drop_last() =~= r.take(i as int));
                assert(t1.last() == r[i as int]);
                assert(r[i as int] == (k, c as nat));
                if i == 0 {
                    assert(t1.len() == 1);
                    assert(v@ =~= run_text(t1[0]));
                } else {
                    assert(v@ =~= summary_text(t1));
                }
            }
            i += 1;
        }
        proof {
            assert(r.take(r.len() as int) =~= r);
        }
        string_from_chars(v)
    }

    /// The rules of this configuration.
    pub fn rules(&self) -> (r: Rules)
        requires
            self.move_bound >= 1,
        ensures
            r.layout.kinds_spec() == self.layout.kinds_spec(),
            r.layout.runs_spec() == self.layout.runs_spec(),
            r.layout.king_index_spec() == self.layout.king_index_spec(),
            r.move_bound == self.move_bound,
    {
        Rules::new(self.layout.clone(), self.move_bound)
    }
}

} // verus!
