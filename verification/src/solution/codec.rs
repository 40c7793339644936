//! The binary table of a solution bundle (`data.bin`).
//!
//! Layout (all integers little-endian): the magic bytes `ICHSOL01`, the format version (u32),
//! the piece count (u32), then six length-prefixed lists (u32 length): the states (anchor x
//! and y as i32, then one i64 raw square per piece), the trap ids (u32), the tempo ids (u32),
//! the transitions (state id, then eight u32 targets), and the two strategies (pairs of u32).

use vstd::prelude::*;

use crate::board::coord::Coord;
use crate::board::position::{Position, MAX_PIECES};
use crate::board::square::Square;
use crate::scenario::{SearchError, State};
use crate::scenario::text::{decimal_nat, push_decimal_u64, push_str_chars, string_from_chars};
use crate::solution::SolutionData;

verus! {

/// The four little-endian bytes of `v`.
pub open spec fn le_u32(v: u32) -> Seq<u8> {
    seq![(v % 256) as u8, ((v / 0x100) % 256) as u8, ((v / 0x1_0000) % 256) as u8, ((v / 0x100_0000) % 256) as u8]
}

/// The eight little-endian bytes of `v`.
pub open spec fn le_u64(v: u64) -> Seq<u8> {
    le_u32((v % 0x1_0000_0000) as u32) + le_u32((v / 0x1_0000_0000) as u32)
}

/// The four little-endian bytes of `v` in two's complement.
pub open spec fn le_i32(v: i32) -> Seq<u8> {
    le_u32(v as u32)
}

/// The eight little-endian bytes of `v` in two's complement.
pub open spec fn le_i64(v: i64) -> Seq<u8> {
    le_u64(v as u64)
}

/// The concatenation of `f` over the entries of `s`.
pub open spec fn flat<T>(s: Seq<T>, f: spec_fn(T) -> Seq<u8>) -> Seq<u8>
    decreases s.len(),
{
    if s.len() == 0 {
        Seq::empty()
    } else {
        flat(s.drop_last(), f) + f(s.last())
    }
}

/// A list: its length as a u32, then its entries.
pub open spec fn enc_list<T>(s: Seq<T>, f: spec_fn(T) -> Seq<u8>) -> Seq<u8> {
    le_u32(s.len() as u32) + flat(s, f)
}

/// An id.
pub open spec fn enc_id() -> spec_fn(u32) -> Seq<u8> {
    |v: u32| le_u32(v)
}

/// A pair of ids.
pub open spec fn enc_pair() -> spec_fn((u32, u32)) -> Seq<u8> {
    |p: (u32, u32)| le_u32(p.0) + le_u32(p.1)
}

/// A transition: the state id, then the eight targets.
pub open spec fn enc_transition() -> spec_fn((u32, [u32; 8])) -> Seq<u8> {
    |t: (u32, [u32; 8])| le_u32(t.0) + flat(t.1@, enc_id())
}

/// A square, by its raw value.
pub open spec fn enc_square() -> spec_fn(Square) -> Seq<u8> {
    |q: Square| le_i64(q.0)
}

/// A state: the anchor, then the squares in use.
pub open spec fn enc_state() -> spec_fn(State) -> Seq<u8> {
    |s: State| le_i32(s.abs_king.x) + le_i32(s.abs_king.y) + flat(s.pos@, enc_square())
}

/// The magic bytes `ICHSOL01`.
pub open spec fn magic_bytes() -> Seq<u8> {
    seq![0x49u8, 0x43u8, 0x48u8, 0x53u8, 0x4fu8, 0x4cu8, 0x30u8, 0x31u8]
}

/// The lists of a data table, in file order.
pub open spec fn enc_lists(
    states: Seq<State>,
    trap: Seq<u32>,
    tempo: Seq<u32>,
    transitions: Seq<(u32, [u32; 8])>,
    strategy_trap: Seq<(u32, u32)>,
    strategy_tempo: Seq<(u32, u32)>,
) -> Seq<u8> {
    enc_list(states, enc_state()) + enc_list(trap, enc_id()) + enc_list(tempo, enc_id())
        + enc_list(transitions, enc_transition()) + enc_list(strategy_trap, enc_pair())
        + enc_list(strategy_tempo, enc_pair())
}

/// The bytes of a data table with the given version and piece count.
pub open spec fn data_bytes(
    version: u32,
    piece_count: u32,
    states: Seq<State>,
    trap: Seq<u32>,
    tempo: Seq<u32>,
    transitions: Seq<(u32, [u32; 8])>,
    strategy_trap: Seq<(u32, u32)>,
    strategy_tempo: Seq<(u32, u32)>,
) -> Seq<u8> {
    magic_bytes() + le_u32(version) + le_u32(piece_count)
        + enc_lists(states, trap, tempo, transitions, strategy_trap, strategy_tempo)
}

/// `s` uses `pc` slots and every other slot is the captured marker, as a decoded state has.
pub open spec fn state_normal(s: State, pc: nat) -> bool {
    &&& s.pos.len_spec() == pc
    &&& forall|j: int| pc <= j < MAX_PIECES ==> #[trigger] s.pos.slots()[j] == Square(i64::MIN)
}

/// The lists fit the format: each has at most `u32::MAX` entries, and every state is normal
/// for `pc` slots.
pub open spec fn lists_valid(
    pc: nat,
    states: Seq<State>,
    trap: Seq<u32>,
    tempo: Seq<u32>,
    transitions: Seq<(u32, [u32; 8])>,
    strategy_trap: Seq<(u32, u32)>,
    strategy_tempo: Seq<(u32, u32)>,
) -> bool {
    &&& pc <= MAX_PIECES
    &&& states.len() <= u32::MAX
    &&& trap.len() <= u32::MAX
    &&& tempo.len() <= u32::MAX
    &&& transitions.len() <= u32::MAX
    &&& strategy_trap.len() <= u32::MAX
    &&& strategy_tempo.len() <= u32::MAX
    &&& all_normal(states, pc)
}

/// Every state of `xs` is normal for `pc` slots.
#[verifier::opaque]
pub open spec fn all_normal(xs: Seq<State>, pc: nat) -> bool {
    forall|j: int| 0 <= j < xs.len() ==> state_normal(#[trigger] xs[j], pc)
}

/// Decoding the bytes of a u32 gives it back.
pub proof fn lemma_le_u32(v: u32)
    ensures
        le_u32(v).len() == 4,
        le_u32(v)[0] + 0x100 * le_u32(v)[1] + 0x1_0000 * le_u32(v)[2] + 0x100_0000 * le_u32(v)[3] == v,
{
    assert(((v % 256) as u8) + 0x100 * (((v / 0x100) % 256) as u8) + 0x1_0000 * (((v / 0x1_0000) % 256) as u8)
        + 0x100_0000 * (((v / 0x100_0000) % 256) as u8) == v) by (bit_vector);
}

/// Any four bytes are the bytes of the u32 they decode to.
pub proof fn lemma_bytes_u32(b0: u8, b1: u8, b2: u8, b3: u8)
    ensures
        ({
            let v = (b0 + 0x100 * b1 + 0x1_0000 * b2 + 0x100_0000 * b3) as u32;
            le_u32(v) == seq![b0, b1, b2, b3] && v == b0 + 0x100 * b1 + 0x1_0000 * b2 + 0x100_0000 * b3
        }),
{
    assert(((b0 + 0x100 * b1 + 0x1_0000 * b2 + 0x100_0000 * b3) as u32) == b0 + 0x100 * b1 + 0x1_0000 * b2 + 0x100_0000 * b3) by (bit_vector);
    let v = (b0 + 0x100 * b1 + 0x1_0000 * b2 + 0x100_0000 * b3) as u32;
    assert((v % 256) as u8 == b0 && ((v / 0x100) % 256) as u8 == b1 && ((v / 0x1_0000) % 256) as u8 == b2
        && ((v / 0x100_0000) % 256) as u8 == b3) by (bit_vector)
        requires
            v == b0 + 0x100 * b1 + 0x1_0000 * b2 + 0x100_0000 * b3;
    assert(le_u32(v) =~= seq![b0, b1, b2, b3]);
}

/// Splitting a u64 into its low and high halves and joining them back.
pub proof fn lemma_u64_halves(v: u64)
    ensures
        (v % 0x1_0000_0000) as u32 + 0x1_0000_0000 * ((v / 0x1_0000_0000) as u32) == v,
{
    assert((v % 0x1_0000_0000) as u32 + 0x1_0000_0000 * ((v / 0x1_0000_0000) as u32) == v) by (bit_vector);
}

/// Joining two u32 halves and splitting them again.
pub proof fn lemma_u64_join(lo: u32, hi: u32)
    ensures
        ({
            let v = (lo + 0x1_0000_0000 * hi) as u64;
            (v % 0x1_0000_0000) as u32 == lo && (v / 0x1_0000_0000) as u32 == hi && v == lo + 0x1_0000_0000 * hi
        }),
{
    assert(((lo + 0x1_0000_0000 * hi) as u64) == lo + 0x1_0000_0000 * hi) by (bit_vector);
    let v = (lo + 0x1_0000_0000 * hi) as u64;
    assert((v % 0x1_0000_0000) as u32 == lo && (v / 0x1_0000_0000) as u32 == hi) by (bit_vector)
        requires
            v == lo + 0x1_0000_0000 * hi;
}

/// Two's complement casts between i32 and u32 undo each other.
pub proof fn lemma_i32_cast(v: i32, w: u32)
    ensures
        (v as u32) as i32 == v,
        (w as i32) as u32 == w,
{
    assert((v as u32) as i32 == v) by (bit_vector);
    assert((w as i32) as u32 == w) by (bit_vector);
}

/// Two's complement casts between i64 and u64 undo each other.
pub proof fn lemma_i64_cast(v: i64, w: u64)
    ensures
        (v as u64) as i64 == v,
        (w as i64) as u64 == w,
{
    assert((v as u64) as i64 == v) by (bit_vector);
    assert((w as i64) as u64 == w) by (bit_vector);
}

/// `flat` of one more entry.
pub proof fn lemma_flat_push<T>(s: Seq<T>, f: spec_fn(T) -> Seq<u8>, i: int)
    requires
        0 <= i < s.len(),
    ensures
        flat(s.take(i + 1), f) == flat(s.take(i), f) + f(s[i]),
{
    assert(s.take(i + 1).drop_last() =~= s.take(i));
}

/// `flat` of a sequence is the first entry followed by `flat` of the rest.
pub proof fn lemma_flat_cons<T>(s: Seq<T>, f: spec_fn(T) -> Seq<u8>)
    requires
        s.len() > 0,
    ensures
        flat(s, f) == f(s[0]) + flat(s.skip(1), f),
    decreases s.len(),
{
    if s.len() == 1 {
        assert(s.drop_last() =~= Seq::<T>::empty());
        assert(s.skip(1) =~= Seq::<T>::empty());
        assert(flat(s.drop_last(), f) =~= Seq::<u8>::empty());
        assert(flat(s.skip(1), f) =~= Seq::<u8>::empty());
        assert(flat(s, f) =~= f(s[0]));
    } else {
        lemma_flat_cons(s.drop_last(), f);
        assert(s.drop_last().skip(1) =~= s.skip(1).drop_last());
        assert(s.skip(1).last() == s.last());
        assert(flat(s, f) =~= f(s[0]) + flat(s.skip(1), f));
    }
}

/// `flat` of the whole sequence.
pub proof fn lemma_flat_all<T>(s: Seq<T>, f: spec_fn(T) -> Seq<u8>)
    ensures
        flat(s.take(s.len() as int), f) == flat(s, f),
{
    assert(s.take(s.len() as int) =~= s);
}

/// Reading the remaining entries one at a time: after the first `i` entries, the rest.
pub proof fn lemma_flat_step<T>(s: Seq<T>, f: spec_fn(T) -> Seq<u8>, i: int)
    requires
        0 <= i < s.len(),
    ensures
        flat(s.skip(i), f) == f(s[i]) + flat(s.skip(i + 1), f),
{
    lemma_flat_cons(s.skip(i), f);
    assert(s.skip(i).skip(1) =~= s.skip(i + 1));
}

/// The bytes of a u32 determine it.
pub proof fn lemma_le_u32_injective(a: u32, b: u32)
    requires
        le_u32(a) == le_u32(b),
    ensures
        a == b,
{
    lemma_le_u32(a);
    lemma_le_u32(b);
}

/// The bytes of a u64 determine it.
pub proof fn lemma_le_u64_injective(a: u64, b: u64)
    requires
        le_u64(a) == le_u64(b),
    ensures
        a == b,
{
    let (al, ah) = ((a % 0x1_0000_0000) as u32, (a / 0x1_0000_0000) as u32);
    let (bl, bh) = ((b % 0x1_0000_0000) as u32, (b / 0x1_0000_0000) as u32);
    assert(le_u32(al) =~= le_u64(a).take(4));
    assert(le_u32(bl) =~= le_u64(b).take(4));
    assert(le_u32(ah) =~= le_u64(a).skip(4));
    assert(le_u32(bh) =~= le_u64(b).skip(4));
    lemma_le_u32_injective(al, bl);
    lemma_le_u32_injective(ah, bh);
    lemma_u64_halves(a);
    lemma_u64_halves(b);
}

/// The first four bytes after `c`, when the bytes from `c` on start with those of `v`.
pub proof fn lemma_head4(b: Seq<u8>, c: int, v: u32, rest: Seq<u8>)
    requires
        0 <= c <= b.len(),
        b.skip(c) == le_u32(v) + rest,
    ensures
        c + 4 <= b.len(),
        b.subrange(c, c + 4) == le_u32(v),
        b.skip(c + 4) == rest,
{
    assert(b.skip(c).len() == 4 + rest.len());
    assert(b.subrange(c, c + 4) =~= b.skip(c).take(4));
    assert((le_u32(v) + rest).take(4) =~= le_u32(v));
    assert(b.skip(c + 4) =~= b.skip(c).skip(4));
    assert((le_u32(v) + rest).skip(4) =~= rest);
}

/// The first eight bytes after `c`, when the bytes from `c` on start with those of `v`.
pub proof fn lemma_head8(b: Seq<u8>, c: int, v: u64, rest: Seq<u8>)
    requires
        0 <= c <= b.len(),
        b.skip(c) == le_u64(v) + rest,
    ensures
        c + 8 <= b.len(),
        b.subrange(c, c + 8) == le_u64(v),
        b.skip(c + 8) == rest,
{
    assert(b.skip(c).len() == 8 + rest.len());
    assert(b.subrange(c, c + 8) =~= b.skip(c).take(8));
    assert((le_u64(v) + rest).take(8) =~= le_u64(v));
    assert(b.skip(c + 8) =~= b.skip(c).skip(8));
    assert((le_u64(v) + rest).skip(8) =~= rest);
}

/// Appends the bytes of `v`.
fn push_u32(out: &mut Vec<u8>, v: u32)
    ensures
        final(out)@ == old(out)@ + le_u32(v),
{
    out.push((v % 256) as u8);
    out.push(((v / 0x100) % 256) as u8);
    out.push(((v / 0x1_0000) % 256) as u8);
    out.push(((v / 0x100_0000) % 256) as u8);
    proof {
        assert(final(out)@ =~= old(out)@ + le_u32(v));
    }
}

/// Appends the bytes of `v`.
fn push_u64(out: &mut Vec<u8>, v: u64)
    ensures
        final(out)@ == old(out)@ + le_u64(v),
{
    push_u32(out, (v % 0x1_0000_0000) as u32);
    push_u32(out, (v / 0x1_0000_0000) as u32);
    proof {
        assert(final(out)@ =~= old(out)@ + le_u64(v));
    }
}

/// The u32 stored at `cur`.
fn get_u32(bytes: &[u8], cur: usize) -> (r: u32)
    requires
        cur + 4 <= bytes@.len(),
    ensures
        bytes@.subrange(cur as int, cur + 4) == le_u32(r),
{
    let b0 = bytes[cur];
    let b1 = bytes[cur + 1];
    let b2 = bytes[cur + 2];
    let b3 = bytes[cur + 3];
    proof {
        lemma_bytes_u32(b0, b1, b2, b3);
        assert(bytes@.subrange(cur as int, cur + 4) =~= seq![b0, b1, b2, b3]);
    }
    (b0 as u32) + (b1 as u32) * 0x100 + (b2 as u32) * 0x1_0000 + (b3 as u32) * 0x100_0000
}

/// The u64 stored at `cur`.
fn get_u64(bytes: &[u8], cur: usize) -> (r: u64)
    requires
        cur + 8 <= bytes@.len(),
    ensures
        bytes@.subrange(cur as int, cur + 8) == le_u64(r),
{
    let len = bytes.len();
    let lo = get_u32(bytes, cur);
    let hi = get_u32(bytes, cur + 4);
    proof {
        lemma_u64_join(lo, hi);
        assert(bytes@.subrange(cur as int, cur + 8) =~= bytes@.subrange(cur as int, cur + 4) + bytes@.subrange(cur + 4, cur + 8));
    }
    (lo as u64) + (hi as u64) * 0x1_0000_0000
}

/// Reads a list of ids at `cur`: the result and the position after it.
fn read_ids(bytes: &[u8], cur: usize) -> (r: Option<(Vec<u32>, usize)>)
    requires
        cur <= bytes@.len(),
    ensures
        r matches Some((v, c2)) ==> cur <= c2 <= bytes@.len() && bytes@.subrange(cur as int, c2 as int) == enc_list(v@, enc_id())
            && v@.len() <= u32::MAX,
        forall|ids: Seq<u32>, t: Seq<u8>| ids.len() <= u32::MAX && bytes@.skip(cur as int) == #[trigger] (enc_list(ids, enc_id()) + t)
            ==> (r matches Some((v, c2)) && v@ == ids && bytes@.skip(c2 as int) == t),
{
    let ghost b = bytes@;
    if bytes.len() - cur < 4 {
        proof {
            assert forall|ids: Seq<u32>, t: Seq<u8>| ids.len() <= u32::MAX && b.skip(cur as int) == #[trigger] (enc_list(ids, enc_id()) + t) implies false by {
                assert(enc_list(ids, enc_id()) + t =~= le_u32(ids.len() as u32) + (flat(ids, enc_id()) + t));
                lemma_head4(b, cur as int, ids.len() as u32, flat(ids, enc_id()) + t);
            }
        }
        return None;
    }
    let n = get_u32(bytes, cur);
    let mut c = cur + 4;
    let mut v: Vec<u32> = Vec::new();
    let mut i: u32 = 0;
    proof {
        assert forall|ids: Seq<u32>, t: Seq<u8>| ids.len() <= u32::MAX && b.skip(cur as int) == #[trigger] (enc_list(ids, enc_id()) + t) implies
            ids.len() == n && v@ == ids.take(0) && b.skip(c as int) == flat(ids.skip(0), enc_id()) + t by {
            assert(enc_list(ids, enc_id()) + t =~= le_u32(ids.len() as u32) + (flat(ids, enc_id()) + t));
            lemma_head4(b, cur as int, ids.len() as u32, flat(ids, enc_id()) + t);
            lemma_le_u32_injective(n, ids.len() as u32);
            assert(ids.skip(0) =~= ids);
            assert(ids.take(0) =~= Seq::<u32>::empty());
        }
        assert(b.subrange(cur as int, c as int) =~= le_u32(n) + flat(v@, enc_id()));
    }
    while i < n
        invariant
            b == bytes@,
            cur + 4 <= c <= b.len(),
            v@.len() == i,
            i <= n,
            b.subrange(cur as int, c as int) == le_u32(n) + flat(v@, enc_id()),
            forall|ids: Seq<u32>, t: Seq<u8>| ids.len() <= u32::MAX && b.skip(cur as int) == #[trigger] (enc_list(ids, enc_id()) + t) ==>
                ids.len() == n && v@ == ids.take(i as int) && b.skip(c as int) == flat(ids.skip(i as int), enc_id()) + t,
        decreases n - i,
    {
        if bytes.len() - c < 4 {
            proof {
                assert forall|ids: Seq<u32>, t: Seq<u8>| ids.len() <= u32::MAX && b.skip(cur as int) == #[trigger] (enc_list(ids, enc_id()) + t) implies false by {
                    lemma_flat_step(ids, enc_id(), i as int);
                    assert(flat(ids.skip(i as int), enc_id()) + t =~= le_u32(ids[i as int]) + (flat(ids.skip(i + 1), enc_id()) + t));
                    lemma_head4(b, c as int, ids[i as int], flat(ids.skip(i + 1), enc_id()) + t);
                }
            }
            return None;
        }
        let x = get_u32(bytes, c);
        let ghost v0 = v@;
        let ghost c0 = c;
        v.push(x);
        c = c + 4;
        proof {
            assert(v@.drop_last() =~= v0);
            assert(b.subrange(cur as int, c as int) =~= b.subrange(cur as int, c0 as int) + b.subrange(c0 as int, c as int));
            assert(b.subrange(cur as int, c as int) =~= le_u32(n) + flat(v@, enc_id()));
            assert forall|ids: Seq<u32>, t: Seq<u8>| ids.len() <= u32::MAX && b.skip(cur as int) == #[trigger] (enc_list(ids, enc_id()) + t) implies
                ids.len() == n && v@ == ids.take(i + 1) && b.skip(c as int) == flat(ids.skip(i + 1), enc_id()) + t by {
                lemma_flat_step(ids, enc_id(), i as int);
                assert(flat(ids.skip(i as int), enc_id()) + t =~= le_u32(ids[i as int]) + (flat(ids.skip(i + 1), enc_id()) + t));
                lemma_head4(b, c0 as int, ids[i as int], flat(ids.skip(i + 1), enc_id()) + t);
                lemma_le_u32_injective(x, ids[i as int]);
                assert(v@ =~= ids.take(i + 1));
            }
        }
        i = i + 1;
    }
    proof {
        assert forall|ids: Seq<u32>, t: Seq<u8>| ids.len() <= u32::MAX && b.skip(cur as int) == #[trigger] (enc_list(ids, enc_id()) + t) implies
            v@ == ids && b.skip(c as int) == t by {
            assert(ids.take(n as int) =~= ids);
            assert(ids.skip(n as int) =~= Seq::<u32>::empty());
            assert(flat(ids.skip(n as int), enc_id()) =~= Seq::<u8>::empty());
            assert(flat(ids.skip(n as int), enc_id()) + t =~= t);
        }
    }
    Some((v, c))
}

/// Reads a pair of ids at `c`: the pair and the position after it.
fn read_pair(bytes: &[u8], c: usize) -> (r: Option<((u32, u32), usize)>)
    requires
        c <= bytes@.len(),
    ensures
        r matches Some((p, c2)) ==> c <= c2 <= bytes@.len() && bytes@.subrange(c as int, c2 as int) == enc_pair()(p),
        forall|p: (u32, u32), t: Seq<u8>| bytes@.skip(c as int) == #[trigger] (enc_pair()(p) + t)
            ==> (r matches Some((p2, c2)) && p2 == p && bytes@.skip(c2 as int) == t),
{
    let ghost b = bytes@;
    if bytes.len() - c < 8 {
        proof {
            assert forall|p: (u32, u32), t: Seq<u8>| b.skip(c as int) == #[trigger] (enc_pair()(p) + t) implies false by {
                assert(enc_pair()(p) + t =~= le_u32(p.0) + (le_u32(p.1) + t));
                lemma_head4(b, c as int, p.0, le_u32(p.1) + t);
                lemma_head4(b, c + 4, p.1, t);
            }
        }
        return None;
    }
    let x = get_u32(bytes, c);
    let y = get_u32(bytes, c + 4);
    proof {
        assert(b.subrange(c as int, c + 8) =~= b.subrange(c as int, c + 4) + b.subrange(c + 4, c + 8));
        assert forall|p: (u32, u32), t: Seq<u8>| b.skip(c as int) == #[trigger] (enc_pair()(p) + t) implies
            (x, y) == p && b.skip(c + 8) == t by {
            assert(enc_pair()(p) + t =~= le_u32(p.0) + (le_u32(p.1) + t));
            lemma_head4(b, c as int, p.0, le_u32(p.1) + t);
            lemma_head4(b, c + 4, p.1, t);
            lemma_le_u32_injective(x, p.0);
            lemma_le_u32_injective(y, p.1);
        }
    }
    Some(((x, y), c + 8))
}

/// Reads a transition at `c`: the transition and the position after it.
fn read_transition(bytes: &[u8], c: usize) -> (r: Option<((u32, [u32; 8]), usize)>)
    requires
        c <= bytes@.len(),
    ensures
        r matches Some((e, c2)) ==> c <= c2 <= bytes@.len() && bytes@.subrange(c as int, c2 as int) == enc_transition()(e),
        forall|e: (u32, [u32; 8]), t: Seq<u8>| bytes@.skip(c as int) == #[trigger] (enc_transition()(e) + t)
            ==> (r matches Some((e2, c2)) && e2 == e && bytes@.skip(c2 as int) == t),
{
    let ghost b = bytes@;
    if bytes.len() - c < 4 {
        proof {
            assert forall|e: (u32, [u32; 8]), t: Seq<u8>| b.skip(c as int) == #[trigger] (enc_transition()(e) + t) implies false by {
                assert(enc_transition()(e) + t =~= le_u32(e.0) + (flat(e.1@, enc_id()) + t));
                lemma_head4(b, c as int, e.0, flat(e.1@, enc_id()) + t);
            }
        }
        return None;
    }
    let id = get_u32(bytes, c);
    let mut next: [u32; 8] = [u32::MAX; 8];
    let mut cc = c + 4;
    let mut k: usize = 0;
    proof {
        assert forall|e: (u32, [u32; 8]), t: Seq<u8>| b.skip(c as int) == #[trigger] (enc_transition()(e) + t) implies
            id == e.0 && b.skip(cc as int) == flat(e.1@.skip(0), enc_id()) + t by {
            assert(enc_transition()(e) + t =~= le_u32(e.0) + (flat(e.1@, enc_id()) + t));
            lemma_head4(b, c as int, e.0, flat(e.1@, enc_id()) + t);
            lemma_le_u32_injective(id, e.0);
            assert(e.1@.skip(0) =~= e.1@);
        }
        assert(b.subrange(c as int, cc as int) =~= le_u32(id) + flat(next@.take(0), enc_id()));
    }
    while k < 8
        invariant
            b == bytes@,
            c + 4 <= cc <= b.len(),
            k <= 8,
            next@.len() == 8,
            b.subrange(c as int, cc as int) == le_u32(id) + flat(next@.take(k as int), enc_id()),
            forall|e: (u32, [u32; 8]), t: Seq<u8>| b.skip(c as int) == #[trigger] (enc_transition()(e) + t) ==>
                id == e.0 && next@.take(k as int) == e.1@.take(k as int) && b.skip(cc as int) == flat(e.1@.skip(k as int), enc_id()) + t,
        decreases 8 - k,
    {
        if bytes.len() - cc < 4 {
            proof {
                assert forall|e: (u32, [u32; 8]), t: Seq<u8>| b.skip(c as int) == #[trigger] (enc_transition()(e) + t) implies false by {
                    lemma_flat_step(e.1@, enc_id(), k as int);
                    assert(flat(e.1@.skip(k as int), enc_id()) + t =~= le_u32(e.1@[k as int]) + (flat(e.1@.skip(k + 1), enc_id()) + t));
                    lemma_head4(b, cc as int, e.1@[k as int], flat(e.1@.skip(k + 1), enc_id()) + t);
                }
            }
            return None;
        }
        let x = get_u32(bytes, cc);
        let ghost n0 = next@;
        let ghost c0 = cc;
        next[k] = x;
        cc = cc + 4;
        proof {
            lemma_flat_push(next@, enc_id(), k as int);
            assert(next@.take(k as int) =~= n0.take(k as int));
            assert(b.subrange(c as int, cc as int) =~= b.subrange(c as int, c0 as int) + b.subrange(c0 as int, cc as int));
            assert forall|e: (u32, [u32; 8]), t: Seq<u8>| b.skip(c as int) == #[trigger] (enc_transition()(e) + t) implies
                id == e.0 && next@.take(k + 1) == e.1@.take(k + 1) && b.skip(cc as int) == flat(e.1@.skip(k + 1), enc_id()) + t by {
                lemma_flat_step(e.1@, enc_id(), k as int);
                assert(flat(e.1@.skip(k as int), enc_id()) + t =~= le_u32(e.1@[k as int]) + (flat(e.1@.skip(k + 1), enc_id()) + t));
                lemma_head4(b, c0 as int, e.1@[k as int], flat(e.1@.skip(k + 1), enc_id()) + t);
                lemma_le_u32_injective(x, e.1@[k as int]);
                assert(n0.take(k as int) == e.1@.take(k as int));
                assert(next@.take(k + 1) =~= e.1@.take(k + 1));
            }
        }
        k = k + 1;
    }
    proof {
        assert(next@.take(8) =~= next@);
        assert forall|e: (u32, [u32; 8]), t: Seq<u8>| b.skip(c as int) == #[trigger] (enc_transition()(e) + t) implies
            (id, next) == e && b.skip(cc as int) == t by {
            assert(e.1@.take(8) =~= e.1@);
            assert(next@ =~= e.1@);
            assert(e.1@.skip(8) =~= Seq::<u32>::empty());
            assert(flat(e.1@.skip(8), enc_id()) + t =~= t);
        }
    }
    Some(((id, next), cc))
}

/// Reads a state with `pc` squares at `c`: the state and the position after it.
#[verifier::rlimit(60)]
fn read_state(bytes: &[u8], c: usize, pc: usize) -> (r: Option<(State, usize)>)
    requires
        c <= bytes@.len(),
        pc <= MAX_PIECES,
    ensures
        r matches Some((s, c2)) ==> c <= c2 <= bytes@.len() && bytes@.subrange(c as int, c2 as int) == enc_state()(s)
            && state_normal(s, pc as nat),
        forall|s: State, t: Seq<u8>| state_normal(s, pc as nat) && bytes@.skip(c as int) == #[trigger] (enc_state()(s) + t)
            ==> (r matches Some((s2, c2)) && s2 == s && bytes@.skip(c2 as int) == t),
{
    let ghost b = bytes@;
    if bytes.len() - c < 8 {
        proof {
            assert forall|s: State, t: Seq<u8>| state_normal(s, pc as nat) && b.skip(c as int) == #[trigger] (enc_state()(s) + t) implies false by {
                assert(enc_state()(s) + t =~= le_u32(s.abs_king.x as u32) + (le_u32(s.abs_king.y as u32) + (flat(s.pos@, enc_square()) + t)));
                lemma_head4(b, c as int, s.abs_king.x as u32, le_u32(s.abs_king.y as u32) + (flat(s.pos@, enc_square()) + t));
                lemma_head4(b, c + 4, s.abs_king.y as u32, flat(s.pos@, enc_square()) + t);
            }
        }
        return None;
    }
    let xu = get_u32(bytes, c);
    let yu = get_u32(bytes, c + 4);
    let x = xu as i32;
    let y = yu as i32;
    proof {
        lemma_i32_cast(x, xu);
        lemma_i32_cast(y, yu);
    }
    let mut squares = [Square::none(); MAX_PIECES];
    let mut cc = c + 8;
    let mut k: usize = 0;
    proof {
        assert forall|s: State, t: Seq<u8>| state_normal(s, pc as nat) && b.skip(c as int) == #[trigger] (enc_state()(s) + t) implies
            x == s.abs_king.x && y == s.abs_king.y && b.skip(cc as int) == flat(s.pos@.skip(0), enc_square()) + t by {
            assert(enc_state()(s) + t =~= le_u32(s.abs_king.x as u32) + (le_u32(s.abs_king.y as u32) + (flat(s.pos@, enc_square()) + t)));
            lemma_head4(b, c as int, s.abs_king.x as u32, le_u32(s.abs_king.y as u32) + (flat(s.pos@, enc_square()) + t));
            lemma_head4(b, c + 4, s.abs_king.y as u32, flat(s.pos@, enc_square()) + t);
            lemma_le_u32_injective(xu, s.abs_king.x as u32);
            lemma_le_u32_injective(yu, s.abs_king.y as u32);
            lemma_i32_cast(s.abs_king.x, xu);
            lemma_i32_cast(s.abs_king.y, yu);
            assert(s.pos@.skip(0) =~= s.pos@);
        }
        assert(b.subrange(c as int, cc as int) =~= b.subrange(c as int, c + 4) + b.subrange(c + 4, c + 8));
        assert(b.subrange(c as int, cc as int) =~= le_i32(x) + le_i32(y) + flat(squares@.take(0), enc_square()));
    }
    while k < pc
        invariant
            b == bytes@,
            c + 8 <= cc <= b.len(),
            k <= pc,
            pc <= MAX_PIECES,
            squares@.len() == MAX_PIECES,
            forall|j: int| pc <= j < MAX_PIECES ==> #[trigger] squares@[j] == Square(i64::MIN),
            b.subrange(c as int, cc as int) == le_i32(x) + le_i32(y) + flat(squares@.take(k as int), enc_square()),
            forall|s: State, t: Seq<u8>| state_normal(s, pc as nat) && b.skip(c as int) == #[trigger] (enc_state()(s) + t) ==>
                x == s.abs_king.x && y == s.abs_king.y && squares@.take(k as int) == s.pos@.take(k as int)
                && b.skip(cc as int) == flat(s.pos@.skip(k as int), enc_square()) + t,
        decreases pc - k,
    {
        if bytes.len() - cc < 8 {
            proof {
                assert forall|s: State, t: Seq<u8>| state_normal(s, pc as nat) && b.skip(c as int) == #[trigger] (enc_state()(s) + t) implies false by {
                    crate::board::position::lemma_slots_len(s.pos);
                    lemma_flat_step(s.pos@, enc_square(), k as int);
                    assert(flat(s.pos@.skip(k as int), enc_square()) + t =~= le_u64(s.pos@[k as int].0 as u64) + (flat(s.pos@.skip(k + 1), enc_square()) + t));
                    lemma_head8(b, cc as int, s.pos@[k as int].0 as u64, flat(s.pos@.skip(k + 1), enc_square()) + t);
                }
            }
            return None;
        }
        let u = get_u64(bytes, cc);
        let raw = u as i64;
        proof {
            lemma_i64_cast(raw, u);
        }
        let ghost s0 = squares@;
        let ghost c0 = cc;
        squares[k] = Square::from_raw(raw);
        cc = cc + 8;
        proof {
            lemma_flat_push(squares@, enc_square(), k as int);
            assert(squares@.take(k as int) =~= s0.take(k as int));
            assert(b.subrange(c as int, cc as int) =~= b.subrange(c as int, c0 as int) + b.subrange(c0 as int, cc as int));
            assert(b.subrange(c as int, cc as int) =~= le_i32(x) + le_i32(y) + flat(squares@.take(k + 1), enc_square()));
            assert forall|s: State, t: Seq<u8>| state_normal(s, pc as nat) && b.skip(c as int) == #[trigger] (enc_state()(s) + t) implies
                x == s.abs_king.x && y == s.abs_king.y && squares@.take(k + 1) == s.pos@.take(k + 1)
                && b.skip(cc as int) == flat(s.pos@.skip(k + 1), enc_square()) + t by {
                crate::board::position::lemma_slots_len(s.pos);
                lemma_flat_step(s.pos@, enc_square(), k as int);
                assert(flat(s.pos@.skip(k as int), enc_square()) + t =~= le_u64(s.pos@[k as int].0 as u64) + (flat(s.pos@.skip(k + 1), enc_square()) + t));
                lemma_head8(b, c0 as int, s.pos@[k as int].0 as u64, flat(s.pos@.skip(k + 1), enc_square()) + t);
                lemma_le_u64_injective(u, s.pos@[k as int].0 as u64);
                lemma_i64_cast(s.pos@[k as int].0, u);
                assert(s0.take(k as int) == s.pos@.take(k as int));
                assert(squares@.take(k + 1) =~= s.pos@.take(k + 1));
            }
        }
        k = k + 1;
    }
    let pos = Position::new(pc, squares);
    let st = State { abs_king: Coord::new(x, y), pos };
    proof {
        crate::board::position::lemma_slots_len(pos);
        assert(pos@ =~= squares@.take(pc as int));
        assert(b.subrange(c as int, cc as int) =~= enc_state()(st));
        assert forall|s: State, t: Seq<u8>| state_normal(s, pc as nat) && b.skip(c as int) == #[trigger] (enc_state()(s) + t) implies
            st == s && b.skip(cc as int) == t by {
            crate::board::position::lemma_slots_len(s.pos);
            assert(s.pos@.take(pc as int) =~= s.pos@);
            assert(s.pos@.skip(pc as int) =~= Seq::<Square>::empty());
            assert(flat(s.pos@.skip(pc as int), enc_square()) + t =~= t);
            assert forall|j: int| 0 <= j < MAX_PIECES implies #[trigger] pos.slots()[j] == s.pos.slots()[j] by {
                if j < pc {
                    assert(squares@.take(pc as int)[j] == s.pos@.take(pc as int)[j]);
                }
            }
            assert(pos.slots() =~= s.pos.slots());
            crate::board::position::lemma_position_eq(pos, s.pos);
        }
        assert forall|j: int| pc <= j < MAX_PIECES implies #[trigger] st.pos.slots()[j] == Square(i64::MIN) by {}
    }
    Some((st, cc))
}

/// Reads a list of pairs at `cur`: the list and the position after it.
fn read_pairs(bytes: &[u8], cur: usize ) -> (r: Option<(Vec<(u32, u32)>, usize)>)
    requires
        cur <= bytes@.len(),
        
    ensures
        r matches Some((v, c2)) ==> cur <= c2 <= bytes@.len() && bytes@.subrange(cur as int, c2 as int) == enc_list(v@, enc_pair())
            && v@.len() <= u32::MAX && true,
        forall|xs: Seq<(u32, u32)>, t: Seq<u8>| xs.len() <= u32::MAX && true && bytes@.skip(cur as int) == #[trigger] (enc_list(xs, enc_pair()) + t)
            ==> (r matches Some((v, c2)) && v@ == xs && bytes@.skip(c2 as int) == t),
{
    let ghost b = bytes@;
    if bytes.len() - cur < 4 {
        proof {
            assert forall|xs: Seq<(u32, u32)>, t: Seq<u8>| xs.len() <= u32::MAX && true && b.skip(cur as int) == #[trigger] (enc_list(xs, enc_pair()) + t) implies false by {
                assert(enc_list(xs, enc_pair()) + t =~= le_u32(xs.len() as u32) + (flat(xs, enc_pair()) + t));
                lemma_head4(b, cur as int, xs.len() as u32, flat(xs, enc_pair()) + t);
            }
        }
        return None;
    }
    let n = get_u32(bytes, cur);
    let mut c = cur + 4;
    let mut v: Vec<(u32, u32)> = Vec::new();
    let mut i: u32 = 0;
    proof {
        assert forall|xs: Seq<(u32, u32)>, t: Seq<u8>| xs.len() <= u32::MAX && true && b.skip(cur as int) == #[trigger] (enc_list(xs, enc_pair()) + t) implies
            xs.len() == n && v@ == xs.take(0) && b.skip(c as int) == flat(xs.skip(0), enc_pair()) + t by {
            assert(enc_list(xs, enc_pair()) + t =~= le_u32(xs.len() as u32) + (flat(xs, enc_pair()) + t));
            lemma_head4(b, cur as int, xs.len() as u32, flat(xs, enc_pair()) + t);
            lemma_le_u32_injective(n, xs.len() as u32);
            assert(xs.skip(0) =~= xs);
            assert(xs.take(0) =~= Seq::<(u32, u32)>::empty());
        }
        assert(b.subrange(cur as int, c as int) =~= le_u32(n) + flat(v@, enc_pair()));
    }
    while i < n
        invariant
            b == bytes@,
            
            cur + 4 <= c <= b.len(),
            v@.len() == i,
            i <= n,
            true,
            b.subrange(cur as int, c as int) == le_u32(n) + flat(v@, enc_pair()),
            forall|xs: Seq<(u32, u32)>, t: Seq<u8>| xs.len() <= u32::MAX && true && b.skip(cur as int) == #[trigger] (enc_list(xs, enc_pair()) + t) ==>
                xs.len() == n && v@ == xs.take(i as int) && b.skip(c as int) == flat(xs.skip(i as int), enc_pair()) + t,
        decreases n - i,
    {
        let ghost c0 = c;
        let item = read_pair(bytes, c );
        match item {
            None => {
                proof {
                    assert forall|xs: Seq<(u32, u32)>, t: Seq<u8>| xs.len() <= u32::MAX && true && b.skip(cur as int) == #[trigger] (enc_list(xs, enc_pair()) + t) implies false by {
                        lemma_flat_step(xs, enc_pair(), i as int);
                        assert(flat(xs.skip(i as int), enc_pair()) + t =~= enc_pair()(xs[i as int]) + (flat(xs.skip(i + 1), enc_pair()) + t));
                        assert(b.skip(c0 as int) == enc_pair()(xs[i as int]) + (flat(xs.skip(i + 1), enc_pair()) + t));
                    }
                }
                return None;
            },
            Some((x, c2)) => {
                let ghost v0 = v@;
                v.push(x);
                c = c2;
                proof {
                    assert(v@.drop_last() =~= v0);
                    assert(b.subrange(cur as int, c as int) =~= b.subrange(cur as int, c0 as int) + b.subrange(c0 as int, c as int));
                    assert(b.subrange(cur as int, c as int) =~= le_u32(n) + flat(v@, enc_pair()));
                    
                    assert forall|xs: Seq<(u32, u32)>, t: Seq<u8>| xs.len() <= u32::MAX && true && b.skip(cur as int) == #[trigger] (enc_list(xs, enc_pair()) + t) implies
                        xs.len() == n && v@ == xs.take(i + 1) && b.skip(c as int) == flat(xs.skip(i + 1), enc_pair()) + t by {
                        lemma_flat_step(xs, enc_pair(), i as int);
                        assert(flat(xs.skip(i as int), enc_pair()) + t =~= enc_pair()(xs[i as int]) + (flat(xs.skip(i + 1), enc_pair()) + t));
                        assert(b.skip(c0 as int) == enc_pair()(xs[i as int]) + (flat(xs.skip(i + 1), enc_pair()) + t));
                        assert(v@ =~= xs.take(i + 1));
                    }
                }
            },
        }
        i = i + 1;
    }
    proof {
        assert forall|xs: Seq<(u32, u32)>, t: Seq<u8>| xs.len() <= u32::MAX && true && b.skip(cur as int) == #[trigger] (enc_list(xs, enc_pair()) + t) implies
            v@ == xs && b.skip(c as int) == t by {
            assert(xs.take(n as int) =~= xs);
            assert(xs.skip(n as int) =~= Seq::<(u32, u32)>::empty());
            assert(flat(xs.skip(n as int), enc_pair()) =~= Seq::<u8>::empty());
            assert(flat(xs.skip(n as int), enc_pair()) + t =~= t);
        }
    }
    Some((v, c))
}

/// Reads a list of transitions at `cur`: the list and the position after it.
fn read_transitions(bytes: &[u8], cur: usize ) -> (r: Option<(Vec<(u32, [u32; 8])>, usize)>)
    requires
        cur <= bytes@.len(),
        
    ensures
        r matches Some((v, c2)) ==> cur <= c2 <= bytes@.len() && bytes@.subrange(cur as int, c2 as int) == enc_list(v@, enc_transition())
            && v@.len() <= u32::MAX && true,
        forall|xs: Seq<(u32, [u32; 8])>, t: Seq<u8>| xs.len() <= u32::MAX && true && bytes@.skip(cur as int) == #[trigger] (enc_list(xs, enc_transition()) + t)
            ==> (r matches Some((v, c2)) && v@ == xs && bytes@.skip(c2 as int) == t),
{
    let ghost b = bytes@;
    if bytes.len() - cur < 4 {
        proof {
            assert forall|xs: Seq<(u32, [u32; 8])>, t: Seq<u8>| xs.len() <= u32::MAX && true && b.skip(cur as int) == #[trigger] (enc_list(xs, enc_transition()) + t) implies false by {
                assert(enc_list(xs, enc_transition()) + t =~= le_u32(xs.len() as u32) + (flat(xs, enc_transition()) + t));
                lemma_head4(b, cur as int, xs.len() as u32, flat(xs, enc_transition()) + t);
            }
        }
        return None;
    }
    let n = get_u32(bytes, cur);
    let mut c = cur + 4;
    let mut v: Vec<(u32, [u32; 8])> = Vec::new();
    let mut i: u32 = 0;
    proof {
        assert forall|xs: Seq<(u32, [u32; 8])>, t: Seq<u8>| xs.len() <= u32::MAX && true && b.skip(cur as int) == #[trigger] (enc_list(xs, enc_transition()) + t) implies
            xs.len() == n && v@ == xs.take(0) && b.skip(c as int) == flat(xs.skip(0), enc_transition()) + t by {
            assert(enc_list(xs, enc_transition()) + t =~= le_u32(xs.len() as u32) + (flat(xs, enc_transition()) + t));
            lemma_head4(b, cur as int, xs.len() as u32, flat(xs, enc_transition()) + t);
            lemma_le_u32_injective(n, xs.len() as u32);
            assert(xs.skip(0) =~= xs);
            assert(xs.take(0) =~= Seq::<(u32, [u32; 8])>::empty());
        }
        assert(b.subrange(cur as int, c as int) =~= le_u32(n) + flat(v@, enc_transition()));
    }
    while i < n
        invariant
            b == bytes@,
            
            cur + 4 <= c <= b.len(),
            v@.len() == i,
            i <= n,
            true,
            b.subrange(cur as int, c as int) == le_u32(n) + flat(v@, enc_transition()),
            forall|xs: Seq<(u32, [u32; 8])>, t: Seq<u8>| xs.len() <= u32::MAX && true && b.skip(cur as int) == #[trigger] (enc_list(xs, enc_transition()) + t) ==>
                xs.len() == n && v@ == xs.take(i as int) && b.skip(c as int) == flat(xs.skip(i as int), enc_transition()) + t,
        decreases n - i,
    {
        let ghost c0 = c;
        let item = read_transition(bytes, c );
        match item {
            None => {
                proof {
                    assert forall|xs: Seq<(u32, [u32; 8])>, t: Seq<u8>| xs.len() <= u32::MAX && true && b.skip(cur as int) == #[trigger] (enc_list(xs, enc_transition()) + t) implies false by {
                        lemma_flat_step(xs, enc_transition(), i as int);
                        assert(flat(xs.skip(i as int), enc_transition()) + t =~= enc_transition()(xs[i as int]) + (flat(xs.skip(i + 1), enc_transition()) + t));
                        assert(b.skip(c0 as int) == enc_transition()(xs[i as int]) + (flat(xs.skip(i + 1), enc_transition()) + t));
                    }
                }
                return None;
            },
            Some((x, c2)) => {
                let ghost v0 = v@;
                v.push(x);
                c = c2;
                proof {
                    assert(v@.drop_last() =~= v0);
                    assert(b.subrange(cur as int, c as int) =~= b.subrange(cur as int, c0 as int) + b.subrange(c0 as int, c as int));
                    assert(b.subrange(cur as int, c as int) =~= le_u32(n) + flat(v@, enc_transition()));
                    
                    assert forall|xs: Seq<(u32, [u32; 8])>, t: Seq<u8>| xs.len() <= u32::MAX && true && b.skip(cur as int) == #[trigger] (enc_list(xs, enc_transition()) + t) implies
                        xs.len() == n && v@ == xs.take(i + 1) && b.skip(c as int) == flat(xs.skip(i + 1), enc_transition()) + t by {
                        lemma_flat_step(xs, enc_transition(), i as int);
                        assert(flat(xs.skip(i as int), enc_transition()) + t =~= enc_transition()(xs[i as int]) + (flat(xs.skip(i + 1), enc_transition()) + t));
                        assert(b.skip(c0 as int) == enc_transition()(xs[i as int]) + (flat(xs.skip(i + 1), enc_transition()) + t));
                        assert(v@ =~= xs.take(i + 1));
                    }
                }
            },
        }
        i = i + 1;
    }
    proof {
        assert forall|xs: Seq<(u32, [u32; 8])>, t: Seq<u8>| xs.len() <= u32::MAX && true && b.skip(cur as int) == #[trigger] (enc_list(xs, enc_transition()) + t) implies
            v@ == xs && b.skip(c as int) == t by {
            assert(xs.take(n as int) =~= xs);
            assert(xs.skip(n as int) =~= Seq::<(u32, [u32; 8])>::empty());
            assert(flat(xs.skip(n as int), enc_transition()) =~= Seq::<u8>::empty());
            assert(flat(xs.skip(n as int), enc_transition()) + t =~= t);
        }
    }
    Some((v, c))
}

/// Reads a list of states at `cur`: the list and the position after it.
#[verifier::rlimit(60)]
fn read_states(bytes: &[u8], cur: usize , pc: usize) -> (r: Option<(Vec<State>, usize)>)
    requires
        cur <= bytes@.len(),
        pc <= MAX_PIECES,
    ensures
        r matches Some((v, c2)) ==> cur <= c2 <= bytes@.len() && bytes@.subrange(cur as int, c2 as int) == enc_list(v@, enc_state())
            && v@.len() <= u32::MAX && all_normal(v@, pc as nat),
        forall|xs: Seq<State>, t: Seq<u8>| xs.len() <= u32::MAX && all_normal(xs, pc as nat) && bytes@.skip(cur as int) == #[trigger] (enc_list(xs, enc_state()) + t)
            ==> (r matches Some((v, c2)) && v@ == xs && bytes@.skip(c2 as int) == t),
{
    let ghost b = bytes@;
    if bytes.len() - cur < 4 {
        proof {
            assert forall|xs: Seq<State>, t: Seq<u8>| xs.len() <= u32::MAX && all_normal(xs, pc as nat) && b.skip(cur as int) == #[trigger] (enc_list(xs, enc_state()) + t) implies false by {
                assert(enc_list(xs, enc_state()) + t =~= le_u32(xs.len() as u32) + (flat(xs, enc_state()) + t));
                lemma_head4(b, cur as int, xs.len() as u32, flat(xs, enc_state()) + t);
            }
        }
        return None;
    }
    let n = get_u32(bytes, cur);
    let mut c = cur + 4;
    let mut v: Vec<State> = Vec::new();
    let mut i: u32 = 0;
    proof {
        assert forall|xs: Seq<State>, t: Seq<u8>| xs.len() <= u32::MAX && all_normal(xs, pc as nat) && b.skip(cur as int) == #[trigger] (enc_list(xs, enc_state()) + t) implies
            xs.len() == n && v@ == xs.take(0) && b.skip(c as int) == flat(xs.skip(0), enc_state()) + t by {
            assert(enc_list(xs, enc_state()) + t =~= le_u32(xs.len() as u32) + (flat(xs, enc_state()) + t));
            lemma_head4(b, cur as int, xs.len() as u32, flat(xs, enc_state()) + t);
            lemma_le_u32_injective(n, xs.len() as u32);
            assert(xs.skip(0) =~= xs);
            assert(xs.take(0) =~= Seq::<State>::empty());
        }
        assert(b.subrange(cur as int, c as int) =~= le_u32(n) + flat(v@, enc_state()));
        reveal(all_normal);
    }
    while i < n
        invariant
            b == bytes@,
            pc <= MAX_PIECES,
            cur + 4 <= c <= b.len(),
            v@.len() == i,
            i <= n,
            all_normal(v@, pc as nat),
            b.subrange(cur as int, c as int) == le_u32(n) + flat(v@, enc_state()),
            forall|xs: Seq<State>, t: Seq<u8>| xs.len() <= u32::MAX && all_normal(xs, pc as nat) && b.skip(cur as int) == #[trigger] (enc_list(xs, enc_state()) + t) ==>
                xs.len() == n && v@ == xs.take(i as int) && b.skip(c as int) == flat(xs.skip(i as int), enc_state()) + t,
        decreases n - i,
    {
        let ghost c0 = c;
        let item = read_state(bytes, c , pc);
        match item {
            None => {
                proof {
                    assert forall|xs: Seq<State>, t: Seq<u8>| xs.len() <= u32::MAX && all_normal(xs, pc as nat) && b.skip(cur as int) == #[trigger] (enc_list(xs, enc_state()) + t) implies false by {
                        lemma_flat_step(xs, enc_state(), i as int);
                        assert(flat(xs.skip(i as int), enc_state()) + t =~= enc_state()(xs[i as int]) + (flat(xs.skip(i + 1), enc_state()) + t));
                        reveal(all_normal);
                        assert(state_normal(xs[i as int], pc as nat));
                        assert(b.skip(c0 as int) == enc_state()(xs[i as int]) + (flat(xs.skip(i + 1), enc_state()) + t));
                    }
                }
                return None;
            },
            Some((x, c2)) => {
                let ghost v0 = v@;
                v.push(x);
                c = c2;
                proof {
                    assert(v@.drop_last() =~= v0);
                    assert(b.subrange(cur as int, c as int) =~= b.subrange(cur as int, c0 as int) + b.subrange(c0 as int, c as int));
                    assert(b.subrange(cur as int, c as int) =~= le_u32(n) + flat(v@, enc_state()));
                    reveal(all_normal);
                    assert forall|j: int| 0 <= j < v@.len() implies state_normal(#[trigger] v@[j], pc as nat) by { if j < v0.len() { assert(v@[j] == v0[j]); } }
                    assert forall|xs: Seq<State>, t: Seq<u8>| xs.len() <= u32::MAX && all_normal(xs, pc as nat) && b.skip(cur as int) == #[trigger] (enc_list(xs, enc_state()) + t) implies
                        xs.len() == n && v@ == xs.take(i + 1) && b.skip(c as int) == flat(xs.skip(i + 1), enc_state()) + t by {
                        lemma_flat_step(xs, enc_state(), i as int);
                        assert(flat(xs.skip(i as int), enc_state()) + t =~= enc_state()(xs[i as int]) + (flat(xs.skip(i + 1), enc_state()) + t));
                        reveal(all_normal);
                        assert(state_normal(xs[i as int], pc as nat));
                        assert(b.skip(c0 as int) == enc_state()(xs[i as int]) + (flat(xs.skip(i + 1), enc_state()) + t));
                        assert(v@ =~= xs.take(i + 1));
                    }
                }
            },
        }
        i = i + 1;
    }
    proof {
        assert forall|xs: Seq<State>, t: Seq<u8>| xs.len() <= u32::MAX && all_normal(xs, pc as nat) && b.skip(cur as int) == #[trigger] (enc_list(xs, enc_state()) + t) implies
            v@ == xs && b.skip(c as int) == t by {
            assert(xs.take(n as int) =~= xs);
            assert(xs.skip(n as int) =~= Seq::<State>::empty());
            assert(flat(xs.skip(n as int), enc_state()) =~= Seq::<u8>::empty());
            assert(flat(xs.skip(n as int), enc_state()) + t =~= t);
        }
    }
    Some((v, c))
}

/// The lists after the first `k` of them, followed by `rest`.
#[verifier::opaque]
pub open spec fn lists_tail(
    k: int,
    states: Seq<State>,
    trap: Seq<u32>,
    tempo: Seq<u32>,
    transitions: Seq<(u32, [u32; 8])>,
    strategy_trap: Seq<(u32, u32)>,
    strategy_tempo: Seq<(u32, u32)>,
    rest: Seq<u8>,
) -> Seq<u8>
    decreases 6 - k,
{
    if k <= 0 {
        enc_list(states, enc_state()) + lists_tail(1, states, trap, tempo, transitions, strategy_trap, strategy_tempo, rest)
    } else if k == 1 {
        enc_list(trap, enc_id()) + lists_tail(2, states, trap, tempo, transitions, strategy_trap, strategy_tempo, rest)
    } else if k == 2 {
        enc_list(tempo, enc_id()) + lists_tail(3, states, trap, tempo, transitions, strategy_trap, strategy_tempo, rest)
    } else if k == 3 {
        enc_list(transitions, enc_transition()) + lists_tail(4, states, trap, tempo, transitions, strategy_trap, strategy_tempo, rest)
    } else if k == 4 {
        enc_list(strategy_trap, enc_pair()) + lists_tail(5, states, trap, tempo, transitions, strategy_trap, strategy_tempo, rest)
    } else if k == 5 {
        enc_list(strategy_tempo, enc_pair()) + rest
    } else {
        rest
    }
}

/// `bytes` start with the table of version 1 for `pc` pieces holding these valid lists, and
/// `rest` follows.
#[verifier::opaque]
pub open spec fn encodes(
    bytes: Seq<u8>,
    pc: nat,
    states: Seq<State>,
    trap: Seq<u32>,
    tempo: Seq<u32>,
    transitions: Seq<(u32, [u32; 8])>,
    strategy_trap: Seq<(u32, u32)>,
    strategy_tempo: Seq<(u32, u32)>,
    rest: Seq<u8>,
) -> bool {
    &&& lists_valid(pc, states, trap, tempo, transitions, strategy_trap, strategy_tempo)
    &&& bytes == data_bytes(1, pc as u32, states, trap, tempo, transitions, strategy_trap, strategy_tempo) + rest
}

/// The start of a table, split into its parts.
proof fn lemma_table_parts(
    bytes: Seq<u8>,
    pc: nat,
    states: Seq<State>,
    trap: Seq<u32>,
    tempo: Seq<u32>,
    transitions: Seq<(u32, [u32; 8])>,
    strategy_trap: Seq<(u32, u32)>,
    strategy_tempo: Seq<(u32, u32)>,
    rest: Seq<u8>,
)
    requires
        encodes(bytes, pc, states, trap, tempo, transitions, strategy_trap, strategy_tempo, rest),
    ensures
        bytes.len() >= 16,
        bytes.subrange(0, 8) == magic_bytes(),
        bytes.subrange(8, 12) == le_u32(1),
        bytes.subrange(12, 16) == le_u32(pc as u32),
        bytes.skip(16) == lists_tail(0, states, trap, tempo, transitions, strategy_trap, strategy_tempo, rest),
{
    reveal_with_fuel(lists_tail, 7);
    reveal(encodes);
    let t5 = lists_tail(5, states, trap, tempo, transitions, strategy_trap, strategy_tempo, rest);
    let t4 = lists_tail(4, states, trap, tempo, transitions, strategy_trap, strategy_tempo, rest);
    let t3 = lists_tail(3, states, trap, tempo, transitions, strategy_trap, strategy_tempo, rest);
    let t2 = lists_tail(2, states, trap, tempo, transitions, strategy_trap, strategy_tempo, rest);
    let t1 = lists_tail(1, states, trap, tempo, transitions, strategy_trap, strategy_tempo, rest);
    let t0 = lists_tail(0, states, trap, tempo, transitions, strategy_trap, strategy_tempo, rest);
    assert(enc_lists(states, trap, tempo, transitions, strategy_trap, strategy_tempo) + rest =~= t0);
    let h = magic_bytes() + le_u32(1) + le_u32(pc as u32);
    assert(bytes =~= h + t0);
    assert(bytes.subrange(0, 8) =~= magic_bytes());
    assert(bytes.subrange(8, 12) =~= le_u32(1));
    assert(bytes.subrange(12, 16) =~= le_u32(pc as u32));
    assert(bytes.skip(16) =~= t0);
}


/// The `k`-th magic byte.
fn magic_byte(k: usize) -> (m: u8)
    requires
        k < 8,
    ensures
        m == magic_bytes()[k as int],
{
    if k == 0 { 0x49 } else if k == 1 { 0x43 } else if k == 2 { 0x48 } else if k == 3 { 0x53 }
    else if k == 4 { 0x4f } else if k == 5 { 0x4c } else if k == 6 { 0x30 } else { 0x31 }
}

/// The first eight bytes are the magic bytes.
fn magic_matches(bytes: &[u8]) -> (b: bool)
    requires
        bytes@.len() >= 8,
    ensures
        b == (bytes@.subrange(0, 8) == magic_bytes()),
{
    let mut k: usize = 0;
    while k < 8
        invariant
            k <= 8,
            bytes@.len() >= 8,
            bytes@.subrange(0, k as int) == magic_bytes().take(k as int),
        decreases 8 - k,
    {
        if bytes[k] != magic_byte(k) {
            proof {
                assert(bytes@.subrange(0, 8)[k as int] != magic_bytes()[k as int]);
            }
            return false;
        }
        proof {
            assert(bytes@.subrange(0, k + 1) =~= magic_bytes().take(k + 1));
        }
        k += 1;
    }
    proof {
        assert(magic_bytes().take(8) =~= magic_bytes());
    }
    true
}

/// The error for wrong magic bytes.
fn wrong_magic() -> (e: SearchError)
    ensures
        e matches SearchError::InvalidScenario { reason } && reason@ == "solution data.bin has wrong magic bytes"@,
{
    crate::scenario::invalid("solution data.bin has wrong magic bytes")
}

/// The error for an unsupported version.
fn version_error(version: u32) -> (e: SearchError)
    ensures
        e matches SearchError::InvalidScenario { reason }
            && reason@ == "solution data.bin version "@ + decimal_nat(version as nat) + " is not supported"@,
{
    let mut t: Vec<char> = Vec::new();
    push_str_chars(&mut t, "solution data.bin version ");
    push_decimal_u64(&mut t, version as u64);
    push_str_chars(&mut t, " is not supported");
    SearchError::InvalidScenario { reason: string_from_chars(t) }
}

/// The error for a piece count that differs from the manifest's.
fn piece_count_error(file_pc: u32, piece_count: usize) -> (e: SearchError)
    ensures
        e matches SearchError::InvalidScenario { reason }
            && reason@ == "solution data.bin piece_count "@ + decimal_nat(file_pc as nat) + " mismatches manifest "@
                + decimal_nat(piece_count as nat),
{
    let mut t: Vec<char> = Vec::new();
    push_str_chars(&mut t, "solution data.bin piece_count ");
    push_decimal_u64(&mut t, file_pc as u64);
    push_str_chars(&mut t, " mismatches manifest ");
    push_decimal_u64(&mut t, piece_count as u64);
    SearchError::InvalidScenario { reason: string_from_chars(t) }
}


/// `bytes` hold, from `c0` on, the lists (valid for `pc` pieces) followed by `rest`.
pub open spec fn lists_then(
    bytes: Seq<u8>,
    c0: int,
    pc: nat,
    states: Seq<State>,
    trap: Seq<u32>,
    tempo: Seq<u32>,
    transitions: Seq<(u32, [u32; 8])>,
    strategy_trap: Seq<(u32, u32)>,
    strategy_tempo: Seq<(u32, u32)>,
    rest: Seq<u8>,
) -> bool {
    &&& lists_valid(pc, states, trap, tempo, transitions, strategy_trap, strategy_tempo)
    &&& bytes.skip(c0) == lists_tail(0, states, trap, tempo, transitions, strategy_trap, strategy_tempo, rest)
}

/// Reads the six lists at `c0`: the tables and the position after them.
#[verifier::rlimit(80)]
#[verifier::spinoff_prover]
fn read_lists(bytes: &[u8], c0: usize, piece_count: usize) -> (r: Option<(SolutionData, usize)>)
    requires
        c0 <= bytes@.len(),
        piece_count <= MAX_PIECES,
    ensures
        r matches Some((d, c)) ==> c0 <= c <= bytes@.len() && bytes@.subrange(c0 as int, c as int) == enc_lists(d.states@, d.trap_set_ids@,
            d.tempo_set_ids@, d.transitions@, d.strategy_trap@, d.strategy_tempo@) && lists_valid(piece_count as nat, d.states@,
            d.trap_set_ids@, d.tempo_set_ids@, d.transitions@, d.strategy_trap@, d.strategy_tempo@),
        forall|st: Seq<State>, tr: Seq<u32>, te: Seq<u32>, tn: Seq<(u32, [u32; 8])>, sa: Seq<(u32, u32)>, sb: Seq<(u32, u32)>, rest: Seq<u8>|
            #[trigger] lists_then(bytes@, c0 as int, piece_count as nat, st, tr, te, tn, sa, sb, rest) ==> (r matches Some((d, c)) && d.states@ == st
                && d.trap_set_ids@ == tr && d.tempo_set_ids@ == te && d.transitions@ == tn && d.strategy_trap@ == sa && d.strategy_tempo@ == sb
                && bytes@.skip(c as int) == rest),
{
    let ghost b = bytes@;
    let ghost pcn = piece_count as nat;
    proof {
        assert forall|st: Seq<State>, tr: Seq<u32>, te: Seq<u32>, tn: Seq<(u32, [u32; 8])>, sa: Seq<(u32, u32)>, sb: Seq<(u32, u32)>, rest: Seq<u8>|
            #[trigger] lists_then(b, c0 as int, pcn, st, tr, te, tn, sa, sb, rest) implies b.skip(c0 as int) == enc_list(st, enc_state()) + lists_tail(1, st, tr, te, tn, sa, sb, rest) by {
            reveal(lists_tail);
        }
    }
    let (states, c1) = match read_states(bytes, c0, piece_count) {
        Some(x) => x,
        None => {
            return None;
        },
    };
    proof {
        assert forall|st: Seq<State>, tr: Seq<u32>, te: Seq<u32>, tn: Seq<(u32, [u32; 8])>, sa: Seq<(u32, u32)>, sb: Seq<(u32, u32)>, rest: Seq<u8>|
            #[trigger] lists_then(b, c0 as int, pcn, st, tr, te, tn, sa, sb, rest) implies states@ == st && b.skip(c1 as int) == enc_list(tr, enc_id()) + lists_tail(2, st, tr, te, tn, sa, sb, rest) by {
            reveal(lists_tail);
        }
    }
    let (trap_set_ids, c2) = match read_ids(bytes, c1) {
        Some(x) => x,
        None => {
            return None;
        },
    };
    proof {
        assert forall|st: Seq<State>, tr: Seq<u32>, te: Seq<u32>, tn: Seq<(u32, [u32; 8])>, sa: Seq<(u32, u32)>, sb: Seq<(u32, u32)>, rest: Seq<u8>|
            #[trigger] lists_then(b, c0 as int, pcn, st, tr, te, tn, sa, sb, rest) implies trap_set_ids@ == tr && b.skip(c2 as int) == enc_list(te, enc_id()) + lists_tail(3, st, tr, te, tn, sa, sb, rest) by {
            reveal(lists_tail);
        }
    }
    let (tempo_set_ids, c3) = match read_ids(bytes, c2) {
        Some(x) => x,
        None => {
            return None;
        },
    };
    proof {
        assert forall|st: Seq<State>, tr: Seq<u32>, te: Seq<u32>, tn: Seq<(u32, [u32; 8])>, sa: Seq<(u32, u32)>, sb: Seq<(u32, u32)>, rest: Seq<u8>|
            #[trigger] lists_then(b, c0 as int, pcn, st, tr, te, tn, sa, sb, rest) implies tempo_set_ids@ == te && b.skip(c3 as int) == enc_list(tn, enc_transition()) + lists_tail(4, st, tr, te, tn, sa, sb, rest) by {
            reveal(lists_tail);
        }
    }
    let (transitions, c4) = match read_transitions(bytes, c3) {
        Some(x) => x,
        None => {
            return None;
        },
    };
    proof {
        assert forall|st: Seq<State>, tr: Seq<u32>, te: Seq<u32>, tn: Seq<(u32, [u32; 8])>, sa: Seq<(u32, u32)>, sb: Seq<(u32, u32)>, rest: Seq<u8>|
            #[trigger] lists_then(b, c0 as int, pcn, st, tr, te, tn, sa, sb, rest) implies transitions@ == tn && b.skip(c4 as int) == enc_list(sa, enc_pair()) + lists_tail(5, st, tr, te, tn, sa, sb, rest) by {
            reveal(lists_tail);
        }
    }
    let (strategy_trap, c5) = match read_pairs(bytes, c4) {
        Some(x) => x,
        None => {
            return None;
        },
    };
    proof {
        assert forall|st: Seq<State>, tr: Seq<u32>, te: Seq<u32>, tn: Seq<(u32, [u32; 8])>, sa: Seq<(u32, u32)>, sb: Seq<(u32, u32)>, rest: Seq<u8>|
            #[trigger] lists_then(b, c0 as int, pcn, st, tr, te, tn, sa, sb, rest) implies strategy_trap@ == sa && b.skip(c5 as int) == enc_list(sb, enc_pair()) + rest by {
            reveal(lists_tail);
        }
    }
    let (strategy_tempo, c6) = match read_pairs(bytes, c5) {
        Some(x) => x,
        None => {
            return None;
        },
    };
    proof {
        assert(b.subrange(c0 as int, c6 as int) =~= b.subrange(c0 as int, c1 as int) + b.subrange(c1 as int, c2 as int) + b.subrange(c2 as int, c3 as int)
            + b.subrange(c3 as int, c4 as int) + b.subrange(c4 as int, c5 as int) + b.subrange(c5 as int, c6 as int));
        reveal(all_normal);
    }
    Some((SolutionData { states, trap_set_ids, tempo_set_ids, transitions, strategy_trap, strategy_tempo }, c6))
}

/// The error of a read past the end of the table.
fn short_read(path: &str) -> (e: SearchError)
    ensures
        e matches SearchError::Io { stage, path: p, error }
            && stage == "solution_load_data_read" && p@ == path@ && error@ == "failed to fill whole buffer"@,
{
    SearchError::Io { stage: "solution_load_data_read", path: path.to_owned(), error: "failed to fill whole buffer".to_owned() }
}

/// Decodes a data table for `piece_count` pieces. Fails with `Io` when the bytes end early,
/// and with `InvalidScenario` when the magic bytes, the version or the piece count differ. On
/// success the bytes start with the table of the result; and whenever the bytes start with
/// the table of some valid lists, those lists are the result.
#[verifier::rlimit(80)]
#[verifier::spinoff_prover]
pub fn read_data(bytes: &[u8], piece_count: usize, path: &str) -> (r: Result<SolutionData, SearchError>)
    requires
        piece_count <= MAX_PIECES,
    ensures
        r matches Ok(d) ==> exists|rest: Seq<u8>|
            #[trigger] encodes(bytes@, piece_count as nat, d.states@, d.trap_set_ids@, d.tempo_set_ids@, d.transitions@, d.strategy_trap@, d.strategy_tempo@, rest),
        forall|st: Seq<State>, tr: Seq<u32>, te: Seq<u32>, tn: Seq<(u32, [u32; 8])>, sa: Seq<(u32, u32)>, sb: Seq<(u32, u32)>, rest: Seq<u8>|
            #[trigger] encodes(bytes@, piece_count as nat, st, tr, te, tn, sa, sb, rest) ==> (r matches Ok(d) && d.states@ == st
                && d.trap_set_ids@ == tr && d.tempo_set_ids@ == te && d.transitions@ == tn && d.strategy_trap@ == sa && d.strategy_tempo@ == sb),
        bytes@.len() >= 8 && bytes@.subrange(0, 8) != magic_bytes() ==> r matches Err(SearchError::InvalidScenario { .. }),
{
    let ghost b = bytes@;
    let ghost pcn = piece_count as nat;
    if bytes.len() < 8 {
        proof {
            assert forall|st: Seq<State>, tr: Seq<u32>, te: Seq<u32>, tn: Seq<(u32, [u32; 8])>, sa: Seq<(u32, u32)>, sb: Seq<(u32, u32)>, rest: Seq<u8>|
                #[trigger] encodes(b, pcn, st, tr, te, tn, sa, sb, rest) implies false by {
                lemma_table_parts(b, pcn, st, tr, te, tn, sa, sb, rest);
            }
        }
        return Err(short_read(path));
    }
    if !magic_matches(bytes) {
        proof {
            assert forall|st: Seq<State>, tr: Seq<u32>, te: Seq<u32>, tn: Seq<(u32, [u32; 8])>, sa: Seq<(u32, u32)>, sb: Seq<(u32, u32)>, rest: Seq<u8>|
                #[trigger] encodes(b, pcn, st, tr, te, tn, sa, sb, rest) implies false by {
                lemma_table_parts(b, pcn, st, tr, te, tn, sa, sb, rest);
            }
        }
        return Err(wrong_magic());
    }
    if bytes.len() < 16 {
        proof {
            assert forall|st: Seq<State>, tr: Seq<u32>, te: Seq<u32>, tn: Seq<(u32, [u32; 8])>, sa: Seq<(u32, u32)>, sb: Seq<(u32, u32)>, rest: Seq<u8>|
                #[trigger] encodes(b, pcn, st, tr, te, tn, sa, sb, rest) implies false by {
                lemma_table_parts(b, pcn, st, tr, te, tn, sa, sb, rest);
            }
        }
        if bytes.len() >= 12 {
            let version = get_u32(bytes, 8);
            if version != 1 {
                return Err(version_error(version));
            }
        }
        return Err(short_read(path));
    }
    let version = get_u32(bytes, 8);
    if version != 1 {
        proof {
            assert forall|st: Seq<State>, tr: Seq<u32>, te: Seq<u32>, tn: Seq<(u32, [u32; 8])>, sa: Seq<(u32, u32)>, sb: Seq<(u32, u32)>, rest: Seq<u8>|
                #[trigger] encodes(b, pcn, st, tr, te, tn, sa, sb, rest) implies false by {
                lemma_table_parts(b, pcn, st, tr, te, tn, sa, sb, rest);
                lemma_le_u32_injective(version, 1);
            }
        }
        return Err(version_error(version));
    }
    let file_pc = get_u32(bytes, 12);
    if file_pc as usize != piece_count {
        proof {
            assert forall|st: Seq<State>, tr: Seq<u32>, te: Seq<u32>, tn: Seq<(u32, [u32; 8])>, sa: Seq<(u32, u32)>, sb: Seq<(u32, u32)>, rest: Seq<u8>|
                #[trigger] encodes(b, pcn, st, tr, te, tn, sa, sb, rest) implies false by {
                lemma_table_parts(b, pcn, st, tr, te, tn, sa, sb, rest);
                lemma_le_u32_injective(file_pc, piece_count as u32);
            }
        }
        return Err(piece_count_error(file_pc, piece_count));
    }
    proof {
        assert(b.subrange(0, 16) =~= b.subrange(0, 8) + b.subrange(8, 12) + b.subrange(12, 16));
        assert forall|st: Seq<State>, tr: Seq<u32>, te: Seq<u32>, tn: Seq<(u32, [u32; 8])>, sa: Seq<(u32, u32)>, sb: Seq<(u32, u32)>, rest: Seq<u8>|
            #[trigger] encodes(b, pcn, st, tr, te, tn, sa, sb, rest) implies lists_then(b, 16, pcn, st, tr, te, tn, sa, sb, rest) by {
            lemma_table_parts(b, pcn, st, tr, te, tn, sa, sb, rest);
            reveal(encodes);
        }
    }
    match read_lists(bytes, 16, piece_count) {
        None => Err(short_read(path)),
        Some((d, c)) => {
            proof {
                let whole = data_bytes(1, piece_count as u32, d.states@, d.trap_set_ids@, d.tempo_set_ids@, d.transitions@, d.strategy_trap@, d.strategy_tempo@);
                assert(file_pc == piece_count as u32);
                assert(b.subrange(0, 16) == magic_bytes() + le_u32(1) + le_u32(piece_count as u32));
                assert(b.subrange(0, c as int) =~= b.subrange(0, 16) + b.subrange(16, c as int));
                assert(b.subrange(0, c as int) =~= whole);
                assert(b =~= whole + b.skip(c as int));
                assert(encodes(b, pcn, d.states@, d.trap_set_ids@, d.tempo_set_ids@, d.transitions@, d.strategy_trap@, d.strategy_tempo@, b.skip(c as int))) by {
                    reveal(encodes);
                }
                assert(exists|rest: Seq<u8>| #[trigger] encodes(bytes@, piece_count as nat, d.states@, d.trap_set_ids@, d.tempo_set_ids@, d.transitions@, d.strategy_trap@, d.strategy_tempo@, rest));
                assert forall|st: Seq<State>, tr: Seq<u32>, te: Seq<u32>, tn: Seq<(u32, [u32; 8])>, sa: Seq<(u32, u32)>, sb: Seq<(u32, u32)>, rest: Seq<u8>|
                    #[trigger] encodes(b, pcn, st, tr, te, tn, sa, sb, rest) implies d.states@ == st && d.trap_set_ids@ == tr && d.tempo_set_ids@ == te
                        && d.transitions@ == tn && d.strategy_trap@ == sa && d.strategy_tempo@ == sb by {
                    assert(lists_then(b, 16, pcn, st, tr, te, tn, sa, sb, rest));
                }
            }
            let res: Result<SolutionData, SearchError> = Ok(d);
            proof {
                assert(res is Ok);
                assert(res->Ok_0 == d);
                let x = res->Ok_0;
                assert(x.states@ == d.states@);
                assert(encodes(b, pcn, x.states@, x.trap_set_ids@, x.tempo_set_ids@, x.transitions@, x.strategy_trap@, x.strategy_tempo@, b.skip(c as int)));
            }
            res
        },
    }
}

/// `len` as a u32; an error naming `stage` when it does not fit.
pub fn to_u32_len(len: usize, stage: &'static str) -> (r: Result<u32, SearchError>)
    ensures
        len <= u32::MAX ==> r == Ok::<u32, SearchError>(len as u32),
        len > u32::MAX ==> r matches Err(SearchError::InvalidScenario { .. }),
{
    if len <= 0xffff_ffff {
        Ok(len as u32)
    } else {
        let mut t: Vec<char> = Vec::new();
        push_str_chars(&mut t, stage);
        push_str_chars(&mut t, ": length ");
        push_decimal_u64(&mut t, len as u64);
        push_str_chars(&mut t, " does not fit u32");
        Err(SearchError::InvalidScenario { reason: string_from_chars(t) })
    }
}

/// Appends the bytes of `v` in two's complement.
fn push_i32(out: &mut Vec<u8>, v: i32)
    ensures
        final(out)@ == old(out)@ + le_i32(v),
{
    push_u32(out, v as u32);
}

/// Appends the bytes of `v` in two's complement.
fn push_i64(out: &mut Vec<u8>, v: i64)
    ensures
        final(out)@ == old(out)@ + le_i64(v),
{
    push_u64(out, v as u64);
}

/// Appends a list of ids.
fn push_ids(out: &mut Vec<u8>, ids: &Vec<u32>)
    requires
        ids@.len() <= u32::MAX,
    ensures
        final(out)@ == old(out)@ + enc_list(ids@, enc_id()),
{
    push_u32(out, ids.len() as u32);
    let ghost base = out@;
    let mut i: usize = 0;
    while i < ids.len()
        invariant
            i <= ids@.len(),
            out@ == base + flat(ids@.take(i as int), enc_id()),
        decreases ids@.len() - i,
    {
        push_u32(out, ids[i]);
        proof {
            lemma_flat_push(ids@, enc_id(), i as int);
            assert(out@ =~= base + flat(ids@.take(i + 1), enc_id()));
        }
        i += 1;
    }
    proof {
        lemma_flat_all(ids@, enc_id());
    }
}

/// Appends a list of pairs of ids.
fn push_pairs(out: &mut Vec<u8>, ps: &Vec<(u32, u32)>)
    requires
        ps@.len() <= u32::MAX,
    ensures
        final(out)@ == old(out)@ + enc_list(ps@, enc_pair()),
{
    push_u32(out, ps.len() as u32);
    let ghost base = out@;
    let mut i: usize = 0;
    while i < ps.len()
        invariant
            i <= ps@.len(),
            out@ == base + flat(ps@.take(i as int), enc_pair()),
        decreases ps@.len() - i,
    {
        let (a, b) = ps[i];
        push_u32(out, a);
        push_u32(out, b);
        proof {
            lemma_flat_push(ps@, enc_pair(), i as int);
            assert(out@ =~= base + flat(ps@.take(i + 1), enc_pair()));
        }
        i += 1;
    }
    proof {
        lemma_flat_all(ps@, enc_pair());
    }
}

/// Appends a list of transitions.
fn push_transitions(out: &mut Vec<u8>, ts: &Vec<(u32, [u32; 8])>)
    requires
        ts@.len() <= u32::MAX,
    ensures
        final(out)@ == old(out)@ + enc_list(ts@, enc_transition()),
{
    push_u32(out, ts.len() as u32);
    let ghost base = out@;
    let mut i: usize = 0;
    while i < ts.len()
        invariant
            i <= ts@.len(),
            out@ == base + flat(ts@.take(i as int), enc_transition()),
        decreases ts@.len() - i,
    {
        let (id, next) = ts[i];
        let ghost before = out@;
        push_u32(out, id);
        let ghost mid = out@;
        let mut k: usize = 0;
        while k < 8
            invariant
                k <= 8,
                next@.len() == 8,
                out@ == mid + flat(next@.take(k as int), enc_id()),
            decreases 8 - k,
        {
            push_u32(out, next[k]);
            proof {
                lemma_flat_push(next@, enc_id(), k as int);
                assert(out@ =~= mid + flat(next@.take(k + 1), enc_id()));
            }
            k += 1;
        }
        proof {
            lemma_flat_all(next@, enc_id());
            lemma_flat_push(ts@, enc_transition(), i as int);
            assert(out@ =~= base + flat(ts@.take(i + 1), enc_transition()));
        }
        i += 1;
    }
    proof {
        lemma_flat_all(ts@, enc_transition());
    }
}

/// Appends a list of states.
fn push_states(out: &mut Vec<u8>, states: &Vec<State>)
    requires
        states@.len() <= u32::MAX,
    ensures
        final(out)@ == old(out)@ + enc_list(states@, enc_state()),
{
    push_u32(out, states.len() as u32);
    let ghost base = out@;
    let mut i: usize = 0;
    while i < states.len()
        invariant
            i <= states@.len(),
            out@ == base + flat(states@.take(i as int), enc_state()),
        decreases states@.len() - i,
    {
        let s = states[i];
        push_i32(out, s.abs_king.x);
        push_i32(out, s.abs_king.y);
        let ghost mid = out@;
        let sq = s.pos.squares();
        let mut k: usize = 0;
        while k < sq.len()
            invariant
                k <= sq@.len(),
                sq@ == s.pos@,
                out@ == mid + flat(sq@.take(k as int), enc_square()),
            decreases sq@.len() - k,
        {
            push_i64(out, sq[k].raw());
            proof {
                lemma_flat_push(sq@, enc_square(), k as int);
                assert(out@ =~= mid + flat(sq@.take(k + 1), enc_square()));
            }
            k += 1;
        }
        proof {
            lemma_flat_all(sq@, enc_square());
            lemma_flat_push(states@, enc_state(), i as int);
            assert(out@ =~= base + flat(states@.take(i + 1), enc_state()));
        }
        i += 1;
    }
    proof {
        lemma_flat_all(states@, enc_state());
    }
}

/// The bytes of the data table with the given version and piece count. Fails, naming the
/// list, when a list has more than `u32::MAX` entries.
pub fn encode_tables(version: u32, piece_count: u32, data: &SolutionData) -> (r: Result<Vec<u8>, SearchError>)
    ensures
        r matches Ok(v) ==> v@ == data_bytes(version, piece_count, data.states@, data.trap_set_ids@, data.tempo_set_ids@,
            data.transitions@, data.strategy_trap@, data.strategy_tempo@),
        r is Ok <==> (data.states@.len() <= u32::MAX && data.trap_set_ids@.len() <= u32::MAX && data.tempo_set_ids@.len() <= u32::MAX
            && data.transitions@.len() <= u32::MAX && data.strategy_trap@.len() <= u32::MAX && data.strategy_tempo@.len() <= u32::MAX),
        r is Err ==> r->Err_0 is InvalidScenario,
{
    let mut out: Vec<u8> = Vec::new();
    let mut k: usize = 0;
    while k < 8
        invariant
            k <= 8,
            out@ == magic_bytes().take(k as int),
        decreases 8 - k,
    {
        out.push(magic_byte(k));
        proof {
            assert(out@ =~= magic_bytes().take(k + 1));
        }
        k += 1;
    }
    proof {
        assert(magic_bytes().take(8) =~= magic_bytes());
    }
    push_u32(&mut out, version);
    push_u32(&mut out, piece_count);
    let ghost head = out@;
    to_u32_len(data.states.len(), "solution_export_states_len")?;
    push_states(&mut out, &data.states);
    to_u32_len(data.trap_set_ids.len(), "solution_export_trap_len")?;
    push_ids(&mut out, &data.trap_set_ids);
    to_u32_len(data.tempo_set_ids.len(), "solution_export_tempo_len")?;
    push_ids(&mut out, &data.tempo_set_ids);
    to_u32_len(data.transitions.len(), "solution_export_transitions_len")?;
    push_transitions(&mut out, &data.transitions);
    to_u32_len(data.strategy_trap.len(), "solution_export_strategy_trap_len")?;
    push_pairs(&mut out, &data.strategy_trap);
    to_u32_len(data.strategy_tempo.len(), "solution_export_strategy_tempo_len")?;
    push_pairs(&mut out, &data.strategy_tempo);
    proof {
        assert(out@ =~= data_bytes(version, piece_count, data.states@, data.trap_set_ids@, data.tempo_set_ids@,
            data.transitions@, data.strategy_trap@, data.strategy_tempo@));
    }
    Ok(out)
}

/// What a write gives back: the bytes of a table of version 1 with valid lists decode to
/// those lists, whatever follows them.
pub proof fn lemma_tables_read_back(
    pc: nat,
    states: Seq<State>,
    trap: Seq<u32>,
    tempo: Seq<u32>,
    transitions: Seq<(u32, [u32; 8])>,
    strategy_trap: Seq<(u32, u32)>,
    strategy_tempo: Seq<(u32, u32)>,
    rest: Seq<u8>,
)
    requires
        lists_valid(pc, states, trap, tempo, transitions, strategy_trap, strategy_tempo),
    ensures
        encodes(data_bytes(1, pc as u32, states, trap, tempo, transitions, strategy_trap, strategy_tempo) + rest, pc, states, trap,
            tempo, transitions, strategy_trap, strategy_tempo, rest),
{
    reveal(encodes);
}

} // verus!
