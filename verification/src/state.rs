//! Packing of finite-slice states into a single `u128`.
use vstd::prelude::*;

use vstd::arithmetic::div_mod::{lemma_div_denominator, lemma_fundamental_div_mod_converse};
use vstd::arithmetic::power::{lemma_pow_increases, lemma_pow_multiplies, lemma_pow_positive, pow};
use vstd::arithmetic::power2::{lemma2_to64, lemma_pow2, lemma_pow2_adds, lemma_pow2_unfold, pow2};

use crate::pieces::{Group, Layout};

verus! {

/// A packed state: the black king's square, then one field per white slot.
pub type PackedState = u128;

/// The number of bits needed to write every value in `0..=m`.
pub open spec fn bits_for(m: nat) -> nat
    decreases m,
{
    if m < 2 {
        1
    } else {
        1 + bits_for(m / 2)
    }
}

/// `bits_for(m)` bits hold `m`, and fewer than `b` bits suffice whenever `m < 2^b`.
proof fn lemma_bits_for(m: nat, b: nat)
    requires
        b >= 1,
        m < pow2(b),
    ensures
        bits_for(m) >= 1,
        bits_for(m) <= b,
        m < pow2(bits_for(m)),
    decreases m,
{
    lemma_pow2_unfold(b);
    lemma_pow2_unfold(1);
    assert(pow2(0) == 1) by {
        lemma_pow2(0);
        reveal(pow);
    }
    if m >= 2 {
        lemma_bits_for(m / 2, (b - 1) as nat);
        lemma_pow2_unfold(bits_for(m));
    }
}

/// The value of the fields `codes`, least significant first, in base `base`.
pub open spec fn packed_value(codes: Seq<u16>, base: int) -> int
    decreases codes.len(),
{
    if codes.len() == 0 {
        0
    } else {
        codes[0] + base * packed_value(codes.drop_first(), base)
    }
}

/// Field `i` of `v` in base `base`.
pub open spec fn field(v: int, base: int, i: nat) -> int {
    (v / pow(base, i)) % base
}

/// The fields of a packed value, read back in order.
proof fn lemma_fields_of_packed(codes: Seq<u16>, base: int, i: nat)
    requires
        base >= 2,
        i < codes.len(),
        forall|k: int| 0 <= k < codes.len() ==> #[trigger] codes[k] < base,
    ensures
        field(packed_value(codes, base), base, i) == codes[i as int],
    decreases i,
{
    let v = packed_value(codes, base);
    let rest = codes.drop_first();
    lemma_packed_nonneg(rest, base);
    assert(base * packed_value(rest, base) == packed_value(rest, base) * base) by (nonlinear_arith);
    lemma_fundamental_div_mod_converse(v, base, packed_value(rest, base), codes[0] as int);
    if i == 0 {
        assert(pow(base, 0) == 1) by {
            reveal(pow);
        }
    } else {
        lemma_fields_of_packed(rest, base, (i - 1) as nat);
        assert(pow(base, i) == base * pow(base, (i - 1) as nat)) by {
            reveal(pow);
        }
        lemma_pow_positive(base, (i - 1) as nat);
        lemma_packed_nonneg(codes, base);
        lemma_div_denominator(v, base, pow(base, (i - 1) as nat));
    }
}

/// A packed value is not negative.
proof fn lemma_packed_nonneg(codes: Seq<u16>, base: int)
    requires
        base >= 2,
    ensures
        packed_value(codes, base) >= 0,
    decreases codes.len(),
{
    if codes.len() > 0 {
        lemma_packed_nonneg(codes.drop_first(), base);
        assert(base * packed_value(codes.drop_first(), base) >= 0) by (nonlinear_arith)
            requires
                base >= 2,
                packed_value(codes.drop_first(), base) >= 0,
        ;
    }
}

/// `x * b + c` stays below `p * b` when `x < p` and `c < b`.
proof fn lemma_horner_step(x: int, b: int, c: int, p: int)
    requires
        0 <= x < p,
        0 <= c < b,
    ensures
        0 <= x * b + c < p * b,
{
    assert(0 <= x * b + c < p * b) by (nonlinear_arith)
        requires
            0 <= x < p,
            0 <= c < b,
    ;
}

/// `2^128` is one more than `u128::MAX`.
proof fn lemma_pow2_128()
    ensures
        pow2(128) == u128::MAX + 1,
{
    lemma2_to64();
    lemma_pow2_adds(64, 64);
}

/// Packs and unpacks states into a compact `u128`.
///
/// Field 0 is the black king's square (`0..region_size`); then one field per white slot, in
/// `0..=region_size`, where `region_size` means "captured" (never used for a white king).
#[derive(Clone, Debug)]
pub struct Packer {
    pub region_size: u16,
    pub n_white: usize,
    pub bits: u32,
    pub mask: u128,
}

impl Packer {
    /// The packer's fields are consistent: each field takes `bits_for(region_size)` bits and all
    /// fields fit in 128 bits.
    pub open spec fn wf(&self) -> bool {
        &&& self.bits == bits_for(self.region_size as nat)
        &&& self.mask == pow2(self.bits as nat) - 1
        &&& (1 + self.n_white) * self.bits <= 128
    }

    /// The bits of one field.
    pub open spec fn bits_spec(&self) -> nat {
        self.bits as nat
    }

    /// The base of the fields, `2^bits`.
    pub open spec fn base_spec(&self) -> int {
        pow2(self.bits_spec()) as int
    }

    /// The packed state of a black king square and white codes.
    pub open spec fn pack_spec(&self, bk: u16, whites: Seq<u16>) -> u128 {
        packed_value(seq![bk] + whites, self.base_spec()) as u128
    }

    /// Field `i` of a packed state (field 0 is the black king).
    pub open spec fn field_spec(&self, state: u128, i: nat) -> u16 {
        field(state as int, self.base_spec(), i) as u16
    }

    /// The white codes of a packed state.
    pub open spec fn whites_spec(&self, state: u128) -> Seq<u16> {
        Seq::new(self.n_white as nat, |i: int| self.field_spec(state, (i + 1) as nat))
    }

    /// A packer whose fields hold `0..=region_size`; the `1 + n_white` fields must fit in
    /// 128 bits.
    pub fn new(region_size: u16, n_white: usize) -> (p: Packer)
        requires
            (1 + n_white) * bits_for(region_size as nat) <= 128,
        ensures
            p.wf(),
            p.region_size == region_size,
            p.n_white == n_white,
            p.bits_spec() == bits_for(region_size as nat),
    {
        let bits = bits_needed(region_size as u32);
        proof {
            lemma2_to64();
            lemma_bits_for(region_size as nat, 16);
        }
        let mut base: u128 = 1;
        let mut i: u32 = 0;
        while i < bits
            invariant
                i <= bits <= 16,
                base == pow2(i as nat),
            decreases bits - i,
        {
            proof {
                lemma_pow2_unfold((i + 1) as nat);
                lemma2_to64();
                if i + 1 <= 16 {
                    vstd::arithmetic::power2::lemma_pow2_strictly_increases((i + 1) as nat, 17);
                }
            }
            base = base * 2;
            i += 1;
        }
        proof {
            vstd::arithmetic::power2::lemma_pow2_pos(bits as nat);
        }
        Packer { region_size, n_white, bits, mask: base - 1 }
    }

    /// The number of bits per field.
    pub fn bits_per_field(&self) -> (b: u32)
        ensures
            b == self.bits_spec(),
    {
        self.bits
    }

    /// The code of a captured piece: the region size.
    pub fn captured_code(&self) -> (c: u16)
        ensures
            c == self.region_size,
    {
        self.region_size
    }

    /// Facts about a well-formed packer: every code `0..=region_size` fits in a field, and all
    /// fields together fit in a `u128`.
    pub proof fn lemma_wf(&self)
        requires
            self.wf(),
        ensures
            self.region_size < self.base_spec() <= 65536,
            self.base_spec() >= 2,
            pow(self.base_spec(), (self.n_white + 1) as nat) <= u128::MAX + 1,
    {
        lemma2_to64();
        lemma_bits_for(self.region_size as nat, 16);
        vstd::arithmetic::power2::lemma_pow2_strictly_increases(0, self.bits as nat);
        if self.bits < 16 {
            vstd::arithmetic::power2::lemma_pow2_strictly_increases(self.bits as nat, 16);
        }
        lemma_pow2(self.bits as nat);
        lemma_pow_multiplies(2, self.bits as nat, (self.n_white + 1) as nat);
        lemma_pow2((self.bits * (self.n_white + 1)) as nat);
        assert(self.bits * (self.n_white + 1) <= 128) by (nonlinear_arith)
            requires
                (1 + self.n_white) * self.bits <= 128,
        ;
        if self.bits * (self.n_white + 1) < 128 {
            vstd::arithmetic::power2::lemma_pow2_strictly_increases((self.bits * (self.n_white + 1)) as nat, 128);
        }
        lemma_pow2_128();
    }

    /// Packs a black king square and the white codes.
    pub fn pack(&self, bk: u16, whites: &[u16]) -> (st: PackedState)
        requires
            self.wf(),
            whites@.len() == self.n_white,
            bk <= self.region_size,
            forall|i: int| 0 <= i < whites@.len() ==> #[trigger] whites@[i] <= self.region_size,
        ensures
            st == self.pack_spec(bk, whites@),
            st as int == packed_value(seq![bk] + whites@, self.base_spec()),
    {
        let ghost codes = seq![bk] + whites@;
        let ghost b = self.base_spec();
        proof {
            self.lemma_wf();
        }
        let base: u128 = self.mask + 1;
        let n = whites.len();
        let mut v: u128 = 0;
        let mut j: usize = n;
        proof {
            assert(codes.subrange(n + 1, n + 1) =~= Seq::<u16>::empty());
            assert(pow(b, 0) == 1) by {
                reveal(pow);
            }
        }
        while j > 0
            invariant
                j <= n == whites@.len() == self.n_white,
                codes == seq![bk] + whites@,
                b == self.base_spec(),
                base == b,
                2 <= b,
                self.region_size < b,
                pow(b, (n + 1) as nat) <= u128::MAX + 1,
                forall|i: int| 0 <= i < whites@.len() ==> #[trigger] whites@[i] <= self.region_size,
                v == packed_value(codes.subrange(j + 1, n + 1), b),
                v < pow(b, (n - j) as nat),
            decreases j,
        {
            let c = whites[j - 1];
            proof {
                lemma_horner_step(v as int, b, c as int, pow(b, (n - j) as nat));
                assert(pow(b, (n - j + 1) as nat) == b * pow(b, (n - j) as nat)) by {
                    reveal(pow);
                }
                lemma_pow_increases(b as nat, (n - j + 1) as nat, (n + 1) as nat);
                let s = codes.subrange(j as int, n + 1);
                assert(s.drop_first() =~= codes.subrange(j + 1, n + 1));
                assert(s[0] == c);
                assert(b * v == v * b) by (nonlinear_arith);
            }
            v = v * base + c as u128;
            j -= 1;
        }
        proof {
            lemma_horner_step(v as int, b, bk as int, pow(b, n as nat));
            assert(pow(b, (n + 1) as nat) == b * pow(b, n as nat)) by {
                reveal(pow);
            }
            assert(codes.drop_first() =~= codes.subrange(1, n + 1));
            assert(codes.subrange(1, n + 1) =~= codes.drop_first());
            assert(codes[0] == bk);
            assert(b * v == v * b) by (nonlinear_arith);
            assert(packed_value(codes, b) == bk + b * v);
        }
        v * base + bk as u128
    }

    /// Unpacks a state into `whites_out` and returns the black king's square.
    pub fn unpack(&self, state: PackedState, whites_out: &mut [u16]) -> (bk: u16)
        requires
            self.wf(),
            old(whites_out)@.len() == self.n_white,
        ensures
            bk == self.field_spec(state, 0),
            final(whites_out)@ == self.whites_spec(state),
    {
        let ghost b = self.base_spec();
        proof {
            self.lemma_wf();
        }
        let base: u128 = self.mask + 1;
        let bk = (state % base) as u16;
        proof {
            assert(pow(b, 0) == 1) by {
                reveal(pow);
            }
            assert(pow(b, 1) == b * pow(b, 0)) by {
                reveal(pow);
            }
        }
        let mut s: u128 = state / base;
        let mut i: usize = 0;
        let n = whites_out.len();
        while i < n
            invariant
                i <= n == whites_out@.len() == self.n_white,
                b == self.base_spec(),
                base == b,
                2 <= b <= 65536,
                s == state as int / pow(b, (i + 1) as nat),
                forall|k: int| 0 <= k < i ==> #[trigger] whites_out@[k] == self.field_spec(state, (k + 1) as nat),
            decreases n - i,
        {
            proof {
                lemma_pow_positive(b, (i + 1) as nat);
                lemma_div_denominator(state as int, pow(b, (i + 1) as nat), b);
                assert(pow(b, (i + 2) as nat) == b * pow(b, (i + 1) as nat)) by {
                    reveal(pow);
                }
                assert(pow(b, (i + 1) as nat) * b == b * pow(b, (i + 1) as nat)) by (nonlinear_arith);
            }
            whites_out[i] = (s % base) as u16;
            s = s / base;
            i += 1;
        }
        assert(whites_out@ =~= self.whites_spec(state));
        bk
    }
}

/// Reading back a packed state gives the black king square and the white codes that were
/// packed, whenever every code is at most the region size.
pub proof fn lemma_unpack_pack(p: Packer, bk: u16, whites: Seq<u16>)
    requires
        p.wf(),
        whites.len() == p.n_white,
        bk <= p.region_size,
        forall|i: int| 0 <= i < whites.len() ==> #[trigger] whites[i] <= p.region_size,
    ensures
        p.field_spec(p.pack_spec(bk, whites), 0) == bk,
        p.whites_spec(p.pack_spec(bk, whites)) == whites,
{
    p.lemma_wf();
    let b = p.base_spec();
    let codes = seq![bk] + whites;
    assert forall|k: int| 0 <= k < codes.len() implies #[trigger] codes[k] < b by {
        if k > 0 {
            assert(codes[k] == whites[k - 1]);
        }
    }
    lemma_packed_below(codes, b);
    lemma_pow_increases(b as nat, codes.len(), (p.n_white + 1) as nat);
    lemma_fields_of_packed(codes, b, 0);
    assert forall|i: int| 0 <= i < whites.len() implies #[trigger] p.whites_spec(p.pack_spec(bk, whites))[i] == whites[i] by {
        lemma_fields_of_packed(codes, b, (i + 1) as nat);
    }
    assert(p.whites_spec(p.pack_spec(bk, whites)) =~= whites);
}

/// A packed value of codes below the base is below `base^len`.
proof fn lemma_packed_below(codes: Seq<u16>, base: int)
    requires
        base >= 2,
        forall|k: int| 0 <= k < codes.len() ==> #[trigger] codes[k] < base,
    ensures
        0 <= packed_value(codes, base) < pow(base, codes.len()),
    decreases codes.len(),
{
    if codes.len() == 0 {
        assert(pow(base, 0) == 1) by {
            reveal(pow);
        }
    } else {
        let rest = codes.drop_first();
        assert forall|k: int| 0 <= k < rest.len() implies #[trigger] rest[k] < base by {
            assert(rest[k] == codes[k + 1]);
        }
        lemma_packed_below(rest, base);
        lemma_horner_step(packed_value(rest, base), base, codes[0] as int, pow(base, rest.len()));
        assert(pow(base, codes.len()) == base * pow(base, rest.len())) by {
            reveal(pow);
        }
        assert(packed_value(rest, base) * base == base * packed_value(rest, base)) by (nonlinear_arith);
    }
}

/// Whether a state of `1 + n_white` fields holding `0..=region_size` fits in 128 bits.
pub fn packing_fits(region_size: u16, n_white: usize) -> (b: bool)
    ensures
        b == ((1 + n_white) * bits_for(region_size as nat) <= 128),
{
    let bits = bits_needed(region_size as u32);
    proof {
        lemma2_to64();
        lemma_bits_for(region_size as nat, 16);
    }
    if n_white >= 128 {
        assert((1 + n_white) * bits >= 129) by (nonlinear_arith)
            requires
                n_white >= 128,
                bits >= 1,
        ;
        return false;
    }
    assert((1 + n_white) * bits <= 129 * 16) by (nonlinear_arith)
        requires
            n_white < 128,
            bits <= 16,
    ;
    (1 + n_white) * (bits as usize) <= 128
}

/// The number of bits needed to write every value in `0..=max_value_inclusive`.
fn bits_needed(max_value_inclusive: u32) -> (bits: u32)
    ensures
        bits == bits_for(max_value_inclusive as nat),
{
    let mut bits: u32 = 1;
    let mut t: u32 = max_value_inclusive;
    proof {
        lemma2_to64();
        lemma_bits_for(max_value_inclusive as nat, 32);
    }
    while t >= 2
        invariant
            bits >= 1,
            bits + bits_for(t as nat) - 1 == bits_for(max_value_inclusive as nat),
            bits_for(max_value_inclusive as nat) <= 32,
        decreases t,
    {
        assert(bits_for(t as nat) == 1 + bits_for((t / 2) as nat));
        assert(bits_for((t / 2) as nat) >= 1) by {
            lemma2_to64();
            lemma_bits_for((t / 2) as nat, 32);
        }
        t = t / 2;
        bits += 1;
    }
    bits
}

/// `s` with the segment `start..end` sorted ascending.
pub open spec fn sort_codes_segment(s: Seq<u16>, start: int, end: int) -> Seq<u16> {
    s.subrange(0, start) + s.subrange(start, end).sort_by(|a: u16, b: u16| a <= b) + s.subrange(end, s.len() as int)
}

/// `s` with each of the first `k` groups sorted, in order.
pub open spec fn canonical_codes(s: Seq<u16>, groups: Seq<Group>, k: nat) -> Seq<u16>
    decreases k,
{
    if k == 0 {
        s
    } else {
        let prev = canonical_codes(s, groups, (k - 1) as nat);
        sort_codes_segment(prev, groups[k - 1].start as int, groups[k - 1].start + groups[k - 1].len)
    }
}

/// `s` with every group of the layout sorted.
pub open spec fn canonical_spec(s: Seq<u16>, layout: Layout) -> Seq<u16> {
    canonical_codes(s, layout.groups@, layout.groups@.len())
}

/// Sorting keeps the length.
proof fn lemma_sort_codes_len(s: Seq<u16>, start: int, end: int)
    requires
        0 <= start <= end <= s.len(),
    ensures
        sort_codes_segment(s, start, end).len() == s.len(),
{
    let leq = |a: u16, b: u16| a <= b;
    let seg = s.subrange(start, end);
    seg.lemma_sort_by_ensures(leq);
    vstd::seq_lib::to_multiset_len(seg);
    vstd::seq_lib::to_multiset_len(seg.sort_by(leq));
}

/// Canonicalising keeps the length, when the groups lie inside the sequence.
pub proof fn lemma_canonical_len(s: Seq<u16>, groups: Seq<Group>, k: nat)
    requires
        k <= groups.len(),
        forall|g: int| 0 <= g < groups.len() ==> #[trigger] groups[g].start + groups[g].len <= s.len(),
    ensures
        canonical_codes(s, groups, k).len() == s.len(),
    decreases k,
{
    if k > 0 {
        lemma_canonical_len(s, groups, (k - 1) as nat);
        let g = groups[k - 1];
        lemma_sort_codes_len(canonical_codes(s, groups, (k - 1) as nat), g.start as int, g.start + g.len);
    }
}

/// Canonicalising only permutes codes inside the groups: a property of every code holds
/// afterwards, and the length is kept.
pub proof fn lemma_canonical_elements(s: Seq<u16>, groups: Seq<Group>, k: nat, p: spec_fn(u16) -> bool)
    requires
        k <= groups.len(),
        forall|g: int| 0 <= g < groups.len() ==> #[trigger] groups[g].start + groups[g].len <= s.len(),
        forall|j: int| 0 <= j < s.len() ==> #[trigger] p(s[j]),
    ensures
        canonical_codes(s, groups, k).len() == s.len(),
        forall|j: int| 0 <= j < s.len() ==> #[trigger] p(canonical_codes(s, groups, k)[j]),
    decreases k,
{
    broadcast use vstd::seq_lib::group_to_multiset_ensures;

    if k > 0 {
        lemma_canonical_elements(s, groups, (k - 1) as nat, p);
        let prev = canonical_codes(s, groups, (k - 1) as nat);
        let g = groups[k - 1];
        let start = g.start as int;
        let end = g.start + g.len;
        let leq = |a: u16, b: u16| a <= b;
        let seg = prev.subrange(start, end);
        assert(vstd::relations::total_ordering(leq));
        seg.lemma_sort_by_ensures(leq);
        let sorted = seg.sort_by(leq);
        let res = canonical_codes(s, groups, k);
        assert(res == prev.subrange(0, start) + sorted + prev.subrange(end, prev.len() as int));
        assert(sorted.len() == seg.len()) by {
            vstd::seq_lib::to_multiset_len(seg);
            vstd::seq_lib::to_multiset_len(sorted);
        }
        assert forall|j: int| 0 <= j < s.len() implies #[trigger] p(res[j]) by {
            if start <= j < end {
                let x = sorted[j - start];
                assert(sorted.contains(x));
                assert(seg.contains(x));
                let idx = choose|idx: int| 0 <= idx < seg.len() && seg[idx] == x;
                assert(p(prev[start + idx]));
            } else {
                assert(res[j] == prev[j]);
            }
        }
    }
}

/// Canonicalising codes whose first `k` groups are already ascending changes nothing.
pub proof fn lemma_canonical_codes_fixed(s: Seq<u16>, groups: Seq<Group>, k: nat)
    requires
        k <= groups.len(),
        forall|g: int| 0 <= g < groups.len() ==> #[trigger] groups[g].start + groups[g].len <= s.len(),
        forall|g: int, i: int, j: int| #![trigger groups[g], s[i], s[j]]
            0 <= g < k && groups[g].start <= i < j < groups[g].start + groups[g].len ==> s[i] <= s[j],
    ensures
        canonical_codes(s, groups, k) == s,
    decreases k,
{
    if k > 0 {
        lemma_canonical_codes_fixed(s, groups, (k - 1) as nat);
        let g = groups[k - 1];
        let st = g.start as int;
        let en = g.start + g.len;
        let leq = |a: u16, b: u16| a <= b;
        let seg = s.subrange(st, en);
        assert(vstd::relations::total_ordering(leq));
        assert(vstd::relations::sorted_by(seg, leq)) by {
            assert forall|a: int, b: int| 0 <= a < b < seg.len() implies #[trigger] leq(seg[a], seg[b]) by {
                assert(seg[a] == s[st + a] && seg[b] == s[st + b]);
                assert(s[st + a] <= s[st + b]);
            }
        }
        seg.lemma_sort_by_ensures(leq);
        vstd::seq_lib::lemma_sorted_unique(seg, seg.sort_by(leq), leq);
        assert(sort_codes_segment(s, st, en) =~= s);
    }
}

/// Swapping two entries keeps the multiset of a sequence.
proof fn lemma_swap_codes_multiset(s: Seq<u16>, i: int, j: int)
    requires
        0 <= i < s.len(),
        0 <= j < s.len(),
    ensures
        s.update(i, s[j]).update(j, s[i]).to_multiset() == s.to_multiset(),
{
    broadcast use vstd::seq_lib::group_to_multiset_ensures;
    broadcast use vstd::multiset::group_multiset_axioms;

    let t = s.update(i, s[j]);
    vstd::seq_lib::to_multiset_update(s, i, s[j]);
    vstd::seq_lib::to_multiset_update(t, j, s[i]);
    assert(t.update(j, s[i]).to_multiset() =~= s.to_multiset());
}

/// Sorts `a[start..end]` ascending, in place.
fn sort_codes(a: &mut [u16], start: usize, end: usize)
    requires
        start <= end <= old(a)@.len(),
    ensures
        final(a)@ == sort_codes_segment(old(a)@, start as int, end as int),
{
    let ghost orig = old(a)@;
    let ghost leq = |x: u16, y: u16| x <= y;
    let n = a.len();
    let mut i = start;
    while i < end
        invariant
            start <= i <= end <= n,
            a@.len() == n,
            orig.len() == n,
            a@.subrange(0, start as int) == orig.subrange(0, start as int),
            a@.subrange(end as int, n as int) == orig.subrange(end as int, n as int),
            a@.subrange(start as int, end as int).to_multiset() == orig.subrange(start as int, end as int).to_multiset(),
            forall|p: int, q: int| start <= p < q < i ==> #[trigger] a@[p] <= #[trigger] a@[q],
            forall|p: int, q: int| start <= p < i <= q < end ==> #[trigger] a@[p] <= #[trigger] a@[q],
        decreases end - i,
    {
        let mut m = i;
        let mut j = i + 1;
        while j < end
            invariant
                i <= m < j <= end,
                i < end <= n,
                a@.len() == n,
                forall|q: int| i <= q < j ==> a@[m as int] <= #[trigger] a@[q],
            decreases end - j,
        {
            if a[j] < a[m] {
                m = j;
            }
            j += 1;
        }
        let ghost before = a@;
        let tmp = a[i];
        let am = a[m];
        a[i] = am;
        a[m] = tmp;
        proof {
            let seg_before = before.subrange(start as int, end as int);
            let seg_after = a@.subrange(start as int, end as int);
            assert(seg_after =~= seg_before.update(i - start, seg_before[m - start]).update(m - start, seg_before[i - start]));
            lemma_swap_codes_multiset(seg_before, i - start, m - start);
            assert(a@.subrange(0, start as int) =~= before.subrange(0, start as int));
            assert(a@.subrange(end as int, n as int) =~= before.subrange(end as int, n as int));
            assert forall|p: int, q: int| start <= p < q < i + 1 implies #[trigger] a@[p] <= #[trigger] a@[q] by {
                if q < i {
                    assert(a@[p] == before[p] && a@[q] == before[q]);
                } else {
                    assert(a@[q] == before[m as int]);
                    assert(a@[p] == before[p]);
                }
            }
            assert forall|p: int, q: int| start <= p < i + 1 <= q < end implies #[trigger] a@[p] <= #[trigger] a@[q] by {
                if p < i {
                    if q == m {
                        assert(a@[q] == before[i as int]);
                    } else {
                        assert(a@[q] == before[q]);
                    }
                } else {
                    assert(a@[p] == before[m as int]);
                    if q == m {
                        assert(a@[q] == before[i as int]);
                    } else {
                        assert(a@[q] == before[q]);
                    }
                }
            }
        }
        i += 1;
    }
    proof {
        let seg = a@.subrange(start as int, end as int);
        let oseg = orig.subrange(start as int, end as int);
        assert(vstd::relations::total_ordering(leq));
        oseg.lemma_sort_by_ensures(leq);
        assert(vstd::relations::sorted_by(seg, leq)) by {
            assert forall|p: int, q: int| 0 <= p < q < seg.len() implies #[trigger] leq(seg[p], seg[q]) by {
                assert(seg[p] == a@[start + p] && seg[q] == a@[start + q]);
            }
        }
        vstd::seq_lib::lemma_sorted_unique(seg, oseg.sort_by(leq), leq);
        assert(a@ =~= a@.subrange(0, start as int) + seg + a@.subrange(end as int, n as int));
    }
}

/// Canonicalises indistinguishable pieces by sorting the codes of each group.
///
/// The captured code is the largest code, so captured pieces sort last.
pub fn canonicalize(whites: &mut [u16], layout: &Layout)
    requires
        layout.wf(),
        old(whites)@.len() == layout.slots@.len(),
    ensures
        final(whites)@ == canonical_spec(old(whites)@, *layout),
{
    let mut g: usize = 0;
    let n_slots = layout.slots.len();
    while g < layout.groups.len()
        invariant
            n_slots == layout.slots@.len(),
            layout.wf(),
            g <= layout.groups@.len(),
            old(whites)@.len() == layout.slots@.len(),
            whites@ == canonical_codes(old(whites)@, layout.groups@, g as nat),
        decreases layout.groups@.len() - g,
    {
        proof {
            lemma_canonical_len(old(whites)@, layout.groups@, g as nat);
            assert(layout.groups@[g as int].len > 0);
            assert(layout.groups@[g as int].start + layout.groups@[g as int].len <= layout.slots@.len());
        }
        let start = layout.groups[g].start;
        let end = start + layout.groups[g].len;
        sort_codes(whites, start, end);
        g += 1;
    }
}

} // verus!
