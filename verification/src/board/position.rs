use vstd::prelude::*;

use std::ops::Range;

use crate::board::square::{lemma_square_le_total, Square};
use crate::chess::layout::PieceLayout;

verus! {

broadcast use vstd::array::group_array_axioms;

/// Maximum number of white pieces (the black king is not counted).
pub const MAX_PIECES: usize = 16;

/// The order on squares used for canonical positions, as a spec closure.
pub open spec fn square_leq() -> spec_fn(Square, Square) -> bool {
    |a: Square, b: Square| a.le_spec(b)
}

/// `s` with the segment `start..end` sorted.
pub open spec fn sort_segment_spec(s: Seq<Square>, start: int, end: int) -> Seq<Square> {
    s.subrange(0, start) + s.subrange(start, end).sort_by(square_leq()) + s.subrange(end, s.len() as int)
}

/// `slots` with each of the first `k` runs sorted, in order.
pub open spec fn canonical_slots(slots: Seq<Square>, runs: Seq<Range<usize>>, k: nat) -> Seq<Square>
    decreases k,
{
    if k == 0 {
        slots
    } else {
        let prev = canonical_slots(slots, runs, (k - 1) as nat);
        sort_segment_spec(prev, runs[k - 1].start as int, runs[k - 1].end as int)
    }
}

/// The square order is total.
pub proof fn lemma_le_total(a: Square, b: Square)
    ensures
        a.le_spec(b) || b.le_spec(a),
{
}

/// The square order is transitive.
pub proof fn lemma_le_trans(a: Square, b: Square, c: Square)
    requires
        a.le_spec(b),
        b.le_spec(c),
    ensures
        a.le_spec(c),
{
}

/// Swapping two entries keeps the multiset of a sequence.
proof fn lemma_swap_multiset(s: Seq<Square>, i: int, j: int)
    requires
        0 <= i < s.len(),
        0 <= j < s.len(),
    ensures
        s.update(i, s[j]).update(j, s[i]).to_multiset() == s.to_multiset(),
{
    broadcast use vstd::seq_lib::group_to_multiset_ensures;
    broadcast use vstd::multiset::group_multiset_axioms;
    let t = s.update(i, s[j]);
    vstd::seq_lib::to_multiset_update(s, i, s[j]);
    vstd::seq_lib::to_multiset_update(t, j, s[i]);
    assert(t.update(j, s[i]).to_multiset() =~= s.to_multiset());
}

/// Sorts `a[start..end]` in place with the square order.
fn sort_segment(a: &mut [Square; MAX_PIECES], start: usize, end: usize)
    requires
        start <= end <= MAX_PIECES,
    ensures
        final(a)@ == sort_segment_spec(old(a)@, start as int, end as int),
{
    let ghost orig = old(a)@;
    let ghost leq = square_leq();
    let mut i = start;
    while i < end
        invariant
            start <= i <= end <= MAX_PIECES,
            a@.len() == MAX_PIECES,
            orig.len() == MAX_PIECES,
            a@.subrange(0, start as int) == orig.subrange(0, start as int),
            a@.subrange(end as int, MAX_PIECES as int) == orig.subrange(end as int, MAX_PIECES as int),
            a@.subrange(start as int, end as int).to_multiset() == orig.subrange(
                start as int,
                end as int,
            ).to_multiset(),
            forall|p: int, q: int| start <= p < q < i ==> #[trigger] a@[p].le_spec(#[trigger] a@[q]),
            forall|p: int, q: int| start <= p < i <= q < end ==> #[trigger] a@[p].le_spec(#[trigger] a@[q]),
        decreases end - i,
    {
        let mut m = i;
        let mut j = i + 1;
        while j < end
            invariant
                i <= m < j <= end,
                i < end <= MAX_PIECES,
                a@.len() == MAX_PIECES,
                forall|q: int| i <= q < j ==> #[trigger] a@[m as int].le_spec(a@[q]),
            decreases end - j,
        {
            if !a[m].sorts_before_or_eq(a[j]) {
                proof {
                    lemma_le_total(a@[j as int], a@[m as int]);
                    assert forall|q: int| i <= q < j + 1 implies #[trigger] a@[j as int].le_spec(a@[q]) by {
                        if q < j {
                            lemma_le_trans(a@[j as int], a@[m as int], a@[q]);
                        } else {
                            lemma_le_total(a@[q], a@[q]);
                        }
                    }
                }
                m = j;
            }
            j += 1;
        }
        let ghost before = a@;
        let tmp = a[i];
        a[i] = a[m];
        a[m] = tmp;
        proof {
            lemma_square_le_total();
            let seg_before = before.subrange(start as int, end as int);
            let seg_after = a@.subrange(start as int, end as int);
            assert(seg_after =~= seg_before.update(i - start, seg_before[m - start]).update(
                m - start,
                seg_before[i - start],
            ));
            lemma_swap_multiset(seg_before, i - start, m - start);
            assert(a@.subrange(0, start as int) =~= before.subrange(0, start as int));
            assert(a@.subrange(end as int, MAX_PIECES as int) =~= before.subrange(
                end as int,
                MAX_PIECES as int,
            ));
            assert forall|p: int, q: int| start <= p < q < i + 1 implies #[trigger] a@[p].le_spec(
                #[trigger] a@[q],
            ) by {
                if q < i {
                    assert(a@[p] == before[p] && a@[q] == before[q]);
                } else {
                    assert(a@[q] == before[m as int]);
                    assert(a@[p] == before[p]);
                }
            }
            assert forall|p: int, q: int| start <= p < i + 1 <= q < end implies #[trigger] a@[p].le_spec(
                #[trigger] a@[q],
            ) by {
                if p < i {
                    if q == m {
                        assert(a@[q] == before[i as int]);
                    } else {
                        assert(a@[q] == before[q]);
                    }
                } else {
                    assert(a@[p] == before[m as int]);
                    if q == m {
                        assert(a@[q] == before[i as int]);
                        assert(before[m as int].le_spec(before[i as int]));
                    } else {
                        assert(a@[q] == before[q]);
                        assert(before[m as int].le_spec(before[q]));
                    }
                }
            }
        }
        i += 1;
    }
    proof {
        lemma_square_le_total();
        let seg = a@.subrange(start as int, end as int);
        let oseg = orig.subrange(start as int, end as int);
        oseg.lemma_sort_by_ensures(leq);
        assert(vstd::relations::sorted_by(seg, leq)) by {
            assert forall|p: int, q: int| 0 <= p < q < seg.len() implies #[trigger] leq(seg[p], seg[q]) by {
                assert(seg[p] == a@[start + p] && seg[q] == a@[start + q]);
            }
        }
        vstd::seq_lib::lemma_sorted_unique(seg, oseg.sort_by(leq), leq);
        assert(a@ =~= a@.subrange(0, start as int) + seg + a@.subrange(end as int, MAX_PIECES as int));
        assert(a@ =~= sort_segment_spec(orig, start as int, end as int));
    }
}

/// A piece placement relative to the black king, which stands at the origin.
///
/// Slot `i` holds the square of the `i`-th white piece of a [`PieceLayout`], or the captured
/// marker. Only the first `count` slots are in use.
#[derive(Debug, Clone, Copy, PartialEq, Eq, Hash)]
pub struct Position {
    squares: [Square; MAX_PIECES],
    count: u8,
}

impl Position {
    /// All sixteen slots, including those past `count`.
    pub closed spec fn slots(&self) -> Seq<Square> {
        self.squares@
    }

    /// Number of slots in use.
    pub closed spec fn len_spec(&self) -> nat {
        self.count as nat
    }

    #[verifier::type_invariant]
    closed spec fn count_in_range(&self) -> bool {
        self.count <= MAX_PIECES
    }

    pub fn new(count: usize, squares: [Square; MAX_PIECES]) -> (p: Position)
        requires
            count <= MAX_PIECES,
        ensures
            p.slots() == squares@,
            p.len_spec() == count,
            p@ == squares@.take(count as int),
    {
        Position { squares, count: count as u8 }
    }

    /// Number of slots in use (at most `MAX_PIECES`).
    pub fn count(&self) -> (n: usize)
        ensures
            n == self.len_spec(),
            n <= MAX_PIECES,
            self@.len() == n,
            self.slots().len() == MAX_PIECES,
    {
        proof {
            use_type_invariant(self);
        }
        self.count as usize
    }

    /// The slots in use.
    pub fn squares(&self) -> (s: &[Square])
        ensures
            s@ == self@,
            s@.len() == self.len_spec(),
            self.len_spec() <= MAX_PIECES,
    {
        let n = self.count();
        vstd::slice::slice_subrange(self.squares.as_slice(), 0, n)
    }

    pub fn get(&self, idx: usize) -> (s: Square)
        requires
            idx < self.len_spec(),
        ensures
            s == self@[idx as int],
    {
        let n = self.count();
        self.squares[idx]
    }

    pub fn square(&self, idx: usize) -> (s: Square)
        requires
            idx < self.len_spec(),
        ensures
            s == self@[idx as int],
    {
        self.get(idx)
    }

    pub fn set(&mut self, idx: usize, sq: Square)
        requires
            idx < old(self).len_spec(),
        ensures
            final(self).slots() == old(self).slots().update(idx as int, sq),
            final(self).len_spec() == old(self).len_spec(),
            final(self)@ == old(self)@.update(idx as int, sq),
    {
        let n = self.count();
        self.squares[idx] = sq;
        proof {
            assert(self@ =~= old(self)@.update(idx as int, sq));
        }
    }

    pub fn set_square(&mut self, idx: usize, sq: Square)
        requires
            idx < old(self).len_spec(),
        ensures
            final(self).slots() == old(self).slots().update(idx as int, sq),
            final(self).len_spec() == old(self).len_spec(),
            final(self)@ == old(self)@.update(idx as int, sq),
    {
        self.set(idx, sq);
    }

    /// Sorts the squares within each run of identical pieces, so that positions that differ
    /// only by a permutation of identical pieces become equal.
    pub fn canonicalize(&mut self, layout: &PieceLayout)
        requires
            layout.kinds_spec().len() <= MAX_PIECES,
        ensures
            final(self).slots() == canonical_slots(
                old(self).slots(),
                layout.runs_spec(),
                layout.runs_spec().len(),
            ),
            final(self).len_spec() == old(self).len_spec(),
    {
        proof {
            use_type_invariant(&*self);
            use_type_invariant(layout);
        }
        let runs = layout.identical_runs();
        let mut sq = self.squares;
        let mut k: usize = 0;
        while k < runs.len()
            invariant
                k <= runs@.len(),
                runs@ == layout.runs_spec(),
                layout.wf(),
                layout.kinds_spec().len() <= MAX_PIECES,
                sq@ == canonical_slots(old(self).slots(), layout.runs_spec(), k as nat),
            decreases runs@.len() - k,
        {
            let r = &runs[k];
            proof {
                assert(r.start < r.end);
                if runs@.len() > 0 {
                    if k < runs@.len() - 1 {
                        assert(runs@[k as int].end <= runs@[runs@.len() - 1].start);
                    }
                }
            }
            sort_segment(&mut sq, r.start, r.end);
            k += 1;
        }
        self.squares = sq;
    }

    /// Some slot in use holds `sq` (captured slots never count).
    pub fn is_occupied(&self, sq: Square) -> (b: bool)
        ensures
            b == (exists|i: int| 0 <= i < self@.len() && !self@[i].is_none_spec() && self@[i] == sq),
    {
        let n = self.count();
        let mut i: usize = 0;
        while i < n
            invariant
                i <= n,
                n == self@.len(),
                n <= MAX_PIECES,
                n == self.len_spec(),
                self.slots().len() == MAX_PIECES,
                forall|j: int| 0 <= j < i ==> !(!self@[j].is_none_spec() && self@[j] == sq),
            decreases n - i,
        {
            let s = self.squares[i];
            assert(self@[i as int] == s);
            if !s.is_none() && s == sq {
                return true;
            }
            i += 1;
        }
        false
    }

    /// Some slot in use other than `except_idx` holds `sq`.
    pub fn is_occupied_except(&self, sq: Square, except_idx: usize) -> (b: bool)
        ensures
            b == (exists|i: int|
                0 <= i < self@.len() && i != except_idx && !self@[i].is_none_spec() && self@[i] == sq),
    {
        let n = self.count();
        let mut i: usize = 0;
        while i < n
            invariant
                i <= n,
                n == self@.len(),
                n <= MAX_PIECES,
                n == self.len_spec(),
                self.slots().len() == MAX_PIECES,
                forall|j: int|
                    0 <= j < i ==> !(j != except_idx && !self@[j].is_none_spec() && self@[j] == sq),
            decreases n - i,
        {
            let s = self.squares[i];
            assert(self@[i as int] == s);
            if i != except_idx && !s.is_none() && s == sq {
                return true;
            }
            i += 1;
        }
        false
    }

    /// The slots in use that hold a piece, with their indices, in slot order.
    pub fn iter_present(&self) -> (v: Vec<(usize, Square)>)
        ensures
            forall|k: int| 0 <= k < v@.len() ==> {
                let (i, s) = #[trigger] v@[k];
                &&& i < self@.len()
                &&& s == self@[i as int]
                &&& !s.is_none_spec()
            },
            forall|k1: int, k2: int| 0 <= k1 < k2 < v@.len() ==> #[trigger] v@[k1].0 < #[trigger] v@[k2].0,
            forall|i: int| 0 <= i < self@.len() && !self@[i].is_none_spec() ==> exists|k: int|
                0 <= k < v@.len() && #[trigger] v@[k].0 == i,
    {
        let n = self.count();
        let mut v: Vec<(usize, Square)> = Vec::new();
        let mut i: usize = 0;
        while i < n
            invariant
                i <= n,
                n == self@.len(),
                n <= MAX_PIECES,
                n == self.len_spec(),
                self.slots().len() == MAX_PIECES,
                forall|k: int| 0 <= k < v@.len() ==> {
                    let (j, s) = #[trigger] v@[k];
                    &&& j < i
                    &&& s == self@[j as int]
                    &&& !s.is_none_spec()
                },
                forall|k1: int, k2: int| 0 <= k1 < k2 < v@.len() ==> #[trigger] v@[k1].0 < #[trigger] v@[k2].0,
                forall|j: int| 0 <= j < i && !self@[j].is_none_spec() ==> exists|k: int|
                    0 <= k < v@.len() && #[trigger] v@[k].0 == j,
            decreases n - i,
        {
            let s = self.squares[i];
            assert(self@[i as int] == s);
            if !s.is_none() {
                let ghost old_v = v@;
                v.push((i, s));
                proof {
                    assert forall|j: int| 0 <= j < i + 1 && !self@[j].is_none_spec() implies exists|k: int|
                        0 <= k < v@.len() && #[trigger] v@[k].0 == j by {
                        if j < i {
                            let k = choose|k: int| 0 <= k < old_v.len() && #[trigger] old_v[k].0 == j;
                            assert(v@[k] == old_v[k]);
                        } else {
                            assert(v@[v@.len() - 1].0 == j);
                        }
                    }
                }
            }
            i += 1;
        }
        v
    }

    /// A copy of all sixteen slots.
    pub fn clone_squares_array(&self) -> (a: [Square; MAX_PIECES])
        ensures
            a@ == self.slots(),
    {
        self.squares
    }

    /// Both positions use the same number of slots and hold the same squares in all sixteen
    /// slots.
    pub fn same_as(&self, other: &Position) -> (b: bool)
        ensures
            b == (self == other),
    {
        if self.count != other.count {
            return false;
        }
        let mut i: usize = 0;
        while i < MAX_PIECES
            invariant
                i <= MAX_PIECES,
                forall|j: int| 0 <= j < i ==> self.squares@[j] == other.squares@[j],
            decreases MAX_PIECES - i,
        {
            if self.squares[i] != other.squares[i] {
                return false;
            }
            i += 1;
        }
        proof {
            assert(self.squares =~= other.squares);
        }
        true
    }
}

impl View for Position {
    type V = Seq<Square>;

    /// The squares of the slots in use.
    open spec fn view(&self) -> Seq<Square> {
        self.slots().take(self.len_spec() as int)
    }
}

/// Positions are equal exactly when their slot counts and all sixteen slots agree.
pub proof fn lemma_position_eq(p: Position, q: Position)
    ensures
        (p == q) <==> (p.slots() == q.slots() && p.len_spec() == q.len_spec()),
{
    if p.slots() == q.slots() && p.len_spec() == q.len_spec() {
        assert(p.squares =~= q.squares);
    }
}

/// A position has sixteen slots.
pub proof fn lemma_slots_len(p: Position)
    ensures
        p.slots().len() == MAX_PIECES,
{
}

/// The position with the given slots and number of slots in use.
pub open spec fn position_of(slots: Seq<Square>, n: nat) -> Position {
    choose|p: Position| p.slots() == slots && p.len_spec() == n
}

/// A position is the position of its own slots and count.
pub proof fn lemma_position_of(p: Position)
    ensures
        position_of(p.slots(), p.len_spec()) == p,
{
    let q = position_of(p.slots(), p.len_spec());
    assert(exists|r: Position| r.slots() == p.slots() && r.len_spec() == p.len_spec());
    lemma_position_eq(p, q);
}

} // verus!

verus! {

/// Sorting the runs only permutes squares within the region that the runs span: a property
/// of every square there holds afterwards, and the slots past that region are unchanged.
pub proof fn lemma_canonical_elements(
    slots: Seq<Square>,
    runs: Seq<Range<usize>>,
    k: nat,
    n: int,
    p: spec_fn(Square) -> bool,
)
    requires
        k <= runs.len(),
        0 <= n <= slots.len(),
        forall|r: int| 0 <= r < runs.len() ==> #[trigger] runs[r].start <= runs[r].end <= n,
        forall|j: int| 0 <= j < n ==> #[trigger] p(slots[j]),
    ensures
        canonical_slots(slots, runs, k).len() == slots.len(),
        forall|j: int| 0 <= j < n ==> #[trigger] p(canonical_slots(slots, runs, k)[j]),
        forall|j: int| n <= j < slots.len() ==> #[trigger] canonical_slots(slots, runs, k)[j] == slots[j],
    decreases k,
{
    if k > 0 {
        lemma_canonical_elements(slots, runs, (k - 1) as nat, n, p);
        let prev = canonical_slots(slots, runs, (k - 1) as nat);
        let r = runs[k - 1];
        assert(r.start <= r.end <= n);
        let seg = prev.subrange(r.start as int, r.end as int);
        lemma_square_le_total();
        seg.lemma_sort_by_ensures(square_leq());
        let sorted = seg.sort_by(square_leq());
        let res = canonical_slots(slots, runs, k);
        assert(res == prev.subrange(0, r.start as int) + sorted + prev.subrange(r.end as int, prev.len() as int));
        assert(sorted.len() == seg.len()) by {
            vstd::seq_lib::to_multiset_len(seg);
            vstd::seq_lib::to_multiset_len(sorted);
        }
        assert forall|j: int| 0 <= j < n implies #[trigger] p(res[j]) by {
            if r.start <= j < r.end {
                let x = sorted[j - r.start];
                assert(sorted.contains(x));
                assert(seg.contains(x));
                let idx = choose|idx: int| 0 <= idx < seg.len() && seg[idx] == x;
                assert(p(prev[r.start + idx]));
            } else if j < r.start {
                assert(res[j] == prev[j]);
            } else {
                assert(res[j] == prev[j]);
            }
        }
        assert forall|j: int| n <= j < slots.len() implies #[trigger] res[j] == slots[j] by {
            assert(res[j] == prev[j]);
        }
    }
}

} // verus!

verus! {

/// Every one of the first `k` runs of `s` is sorted.
pub open spec fn runs_sorted(s: Seq<Square>, runs: Seq<Range<usize>>, k: nat) -> bool {
    forall|r: int| 0 <= r < k ==> vstd::relations::sorted_by(
        #[trigger] s.subrange(runs[r].start as int, runs[r].end as int),
        square_leq(),
    )
}

/// The runs lie inside `0..len`, each non-empty, in increasing and disjoint order.
pub open spec fn runs_ordered(runs: Seq<Range<usize>>, len: int) -> bool {
    &&& forall|r: int| 0 <= r < runs.len() ==> #[trigger] runs[r].start <= runs[r].end <= len
    &&& forall|a: int, b: int| 0 <= a < b < runs.len() ==> #[trigger] runs[a].end <= #[trigger] runs[b].start
}

/// Sorting a segment that is already sorted changes nothing.
pub proof fn lemma_sort_segment_sorted(s: Seq<Square>, start: int, end: int)
    requires
        0 <= start <= end <= s.len(),
        vstd::relations::sorted_by(s.subrange(start, end), square_leq()),
    ensures
        sort_segment_spec(s, start, end) == s,
{
    let seg = s.subrange(start, end);
    lemma_square_le_total();
    seg.lemma_sort_by_ensures(square_leq());
    vstd::seq_lib::lemma_sorted_unique(seg, seg.sort_by(square_leq()), square_leq());
    assert(sort_segment_spec(s, start, end) =~= s);
}

/// Canonicalising a sequence whose runs are already sorted changes nothing.
pub proof fn lemma_canonical_fixed(s: Seq<Square>, runs: Seq<Range<usize>>, k: nat)
    requires
        k <= runs.len(),
        runs_ordered(runs, s.len() as int),
        runs_sorted(s, runs, k),
    ensures
        canonical_slots(s, runs, k) == s,
    decreases k,
{
    if k > 0 {
        lemma_canonical_fixed(s, runs, (k - 1) as nat);
        let r = runs[k - 1];
        assert(runs_sorted(s, runs, k) ==> vstd::relations::sorted_by(
            s.subrange(runs[k - 1].start as int, runs[k - 1].end as int),
            square_leq(),
        ));
        lemma_sort_segment_sorted(s, r.start as int, r.end as int);
    }
}

/// After canonicalising the first `k` runs, each of them is sorted and the rest of the
/// sequence past them is untouched.
pub proof fn lemma_canonical_sorted(s: Seq<Square>, runs: Seq<Range<usize>>, k: nat)
    requires
        k <= runs.len(),
        runs_ordered(runs, s.len() as int),
    ensures
        canonical_slots(s, runs, k).len() == s.len(),
        runs_sorted(canonical_slots(s, runs, k), runs, k),
        forall|j: int|
            (k == 0 || runs[k - 1].end <= j) && 0 <= j < s.len() ==> #[trigger] canonical_slots(s, runs, k)[j] == s[j],
    decreases k,
{
    if k > 0 {
        lemma_canonical_sorted(s, runs, (k - 1) as nat);
        let prev = canonical_slots(s, runs, (k - 1) as nat);
        let r = runs[k - 1];
        let seg = prev.subrange(r.start as int, r.end as int);
        lemma_square_le_total();
        seg.lemma_sort_by_ensures(square_leq());
        let sorted = seg.sort_by(square_leq());
        assert(sorted.len() == seg.len()) by {
            vstd::seq_lib::to_multiset_len(seg);
            vstd::seq_lib::to_multiset_len(sorted);
        }
        let res = canonical_slots(s, runs, k);
        assert(res == prev.subrange(0, r.start as int) + sorted + prev.subrange(r.end as int, prev.len() as int));
        assert forall|q: int| 0 <= q < k implies vstd::relations::sorted_by(
            #[trigger] res.subrange(runs[q].start as int, runs[q].end as int),
            square_leq(),
        ) by {
            if q == k - 1 {
                assert(res.subrange(r.start as int, r.end as int) =~= sorted);
            } else {
                assert(runs[q].end <= r.start);
                assert(res.subrange(runs[q].start as int, runs[q].end as int) =~= prev.subrange(
                    runs[q].start as int,
                    runs[q].end as int,
                ));
            }
        }
        assert forall|j: int| (runs[k - 1].end <= j) && 0 <= j < s.len() implies #[trigger] res[j] == s[j] by {
            assert(res[j] == prev[j]);
            if k - 1 > 0 {
                assert(runs[k - 2].end <= runs[k - 1].start);
            }
        }
    }
}

/// Canonicalisation is idempotent: a canonical sequence is its own canonical form.
pub proof fn lemma_canonical_idempotent(s: Seq<Square>, runs: Seq<Range<usize>>)
    requires
        runs_ordered(runs, s.len() as int),
    ensures
        canonical_slots(canonical_slots(s, runs, runs.len()), runs, runs.len()) == canonical_slots(
            s,
            runs,
            runs.len(),
        ),
{
    lemma_canonical_sorted(s, runs, runs.len());
    lemma_canonical_fixed(canonical_slots(s, runs, runs.len()), runs, runs.len());
}

} // verus!

verus! {

/// The runs of a well-formed layout lie, in order, within `0..n` whenever the layout has at
/// most `n` slots.
pub proof fn lemma_layout_runs_ordered(layout: PieceLayout, n: int)
    requires
        layout.wf(),
        layout.kinds_spec().len() <= n,
    ensures
        runs_ordered(layout.runs_spec(), n),
{
    let runs = layout.runs_spec();
    assert forall|r: int| 0 <= r < runs.len() implies #[trigger] runs[r].start <= runs[r].end <= n by {
        assert(runs[r].start < runs[r].end);
        if r < runs.len() - 1 {
            assert(runs[r].end <= runs[runs.len() - 1].start);
        }
    }
}

/// Canonicalising a position twice gives the same slots as canonicalising it once.
pub proof fn lemma_canonicalize_idempotent(layout: PieceLayout, p: Position)
    requires
        layout.wf(),
        layout.kinds_spec().len() <= MAX_PIECES,
    ensures
        canonical_slots(
            canonical_slots(p.slots(), layout.runs_spec(), layout.runs_spec().len()),
            layout.runs_spec(),
            layout.runs_spec().len(),
        ) == canonical_slots(p.slots(), layout.runs_spec(), layout.runs_spec().len()),
{
    broadcast use vstd::array::group_array_axioms;
    assert(p.slots().len() == MAX_PIECES);
    lemma_layout_runs_ordered(layout, MAX_PIECES as int);
    lemma_canonical_idempotent(p.slots(), layout.runs_spec());
}

} // verus!
