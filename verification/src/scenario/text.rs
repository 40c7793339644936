//! Building message texts as character sequences.

use vstd::prelude::*;
use vstd::std_specs::iter::IteratorSpec;

verus! {

/// The decimal digit of `d` (for `0 <= d < 10`).
pub open spec fn digit_char(d: int) -> char {
    if d == 0 { '0' }
    else if d == 1 { '1' }
    else if d == 2 { '2' }
    else if d == 3 { '3' }
    else if d == 4 { '4' }
    else if d == 5 { '5' }
    else if d == 6 { '6' }
    else if d == 7 { '7' }
    else if d == 8 { '8' }
    else { '9' }
}

/// Decimal digits of a natural number, most significant first, without leading zeros.
pub open spec fn decimal_nat(n: nat) -> Seq<char>
    decreases n,
{
    if n < 10 {
        seq![digit_char(n as int)]
    } else {
        decimal_nat(n / 10).push(digit_char((n % 10) as int))
    }
}

/// Decimal representation of an integer, with a leading `-` when negative.
pub open spec fn decimal(v: int) -> Seq<char> {
    if v < 0 {
        seq!['-'] + decimal_nat((-v) as nat)
    } else {
        decimal_nat(v as nat)
    }
}

fn digit(d: u64) -> (c: char)
    requires
        d < 10,
    ensures
        c == digit_char(d as int),
{
    if d == 0 { '0' }
    else if d == 1 { '1' }
    else if d == 2 { '2' }
    else if d == 3 { '3' }
    else if d == 4 { '4' }
    else if d == 5 { '5' }
    else if d == 6 { '6' }
    else if d == 7 { '7' }
    else if d == 8 { '8' }
    else { '9' }
}

/// Appends the decimal digits of `n`.
pub fn push_decimal_u64(v: &mut Vec<char>, n: u64)
    ensures
        final(v)@ == old(v)@ + decimal_nat(n as nat),
    decreases n,
{
    if n < 10 {
        v.push(digit(n));
        proof {
            assert(decimal_nat(n as nat) =~= seq![digit_char(n as int)]);
        }
    } else {
        push_decimal_u64(v, n / 10);
        v.push(digit(n % 10));
        proof {
            assert(final(v)@ =~= old(v)@ + decimal_nat(n as nat));
        }
    }
}

/// Appends the decimal representation of `x`.
pub fn push_decimal_i64(v: &mut Vec<char>, x: i64)
    ensures
        final(v)@ == old(v)@ + decimal(x as int),
{
    if x < 0 {
        v.push('-');
        let m: u64 = if x == i64::MIN { 0x8000_0000_0000_0000u64 } else { (-x) as u64 };
        let ghost mid = v@;
        push_decimal_u64(v, m);
        proof {
            assert(final(v)@ =~= old(v)@ + decimal(x as int));
        }
    } else {
        push_decimal_u64(v, x as u64);
    }
}

/// Appends the characters of `s`.
pub fn push_str_chars(v: &mut Vec<char>, s: &str)
    ensures
        final(v)@ == old(v)@ + s@,
{
    let ghost start = v@;
    let mut it = s.chars();
    let ghost total = it.remaining();
    assert(total == s@);
    loop
        invariant
            v@ + it.remaining() == start + total,
            total == s@,
        ensures
            v@ == start + s@,
        decreases start.len() + s@.len() - v@.len(),
    {
        let ghost before = it.remaining();
        match it.next() {
            Some(c) => {
                v.push(c);
                proof {
                    assert(v@ + it.remaining() =~= start + total) by {
                        assert(before =~= seq![c] + it.remaining());
                    }
                }
            },
            None => {
                proof {
                    assert(v@ =~= start + total);
                }
                break;
            },
        }
    }
}

/// The string made of the characters `v`.
#[verifier::external_body]
pub fn string_from_chars(v: Vec<char>) -> (s: String)
    ensures
        s@ == v@,
{
    v.into_iter().collect()
}

/// The text of the error for a start position with a piece outside the L∞ bound.
pub open spec fn bound_reason_text(bound: int) -> Seq<char> {
    "start has a piece outside the L∞ bound "@ + decimal(bound)
}

/// The reason given when the start position has a piece outside the L∞ bound `bound`.
pub fn bound_reason(bound: i32) -> (s: String)
    ensures
        s@ == bound_reason_text(bound as int),
{
    let mut v: Vec<char> = Vec::new();
    push_str_chars(&mut v, "start has a piece outside the L∞ bound ");
    push_decimal_i64(&mut v, bound as i64);
    proof {
        assert(v@ =~= bound_reason_text(bound as int));
    }
    string_from_chars(v)
}

} // verus!
