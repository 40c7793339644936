//! The maximal safety trap of an arena.
use vstd::prelude::*;

use crate::arena::Arena;
use crate::pieces::Turn;
use crate::search::buchi::{count_false, lemma_count_false_bound, lemma_count_false_clear};
use crate::solve::buchi::{some_succ, succ_of};

verus! {

/// Every successor of `p` is in `s`.
pub open spec fn every_succ(a: Arena, p: int, s: Seq<bool>) -> bool {
    forall|k: int| 0 <= k < succ_of(a, p).len() ==> s[#[trigger] succ_of(a, p)[k] as int]
}

/// Node `id` keeps White inside `s`: a white node has a successor in `s`, a black node has all
/// its successors in `s`.
pub open spec fn stays_in(a: Arena, s: Seq<bool>, id: int) -> bool {
    if a.nodes@[id].turn == Turn::White {
        some_succ(a, id, s)
    } else {
        every_succ(a, id, s)
    }
}

/// `s` is a trap: no sink is in it, and from each of its nodes White can stay in it.
pub open spec fn is_trap(a: Arena, s: Seq<bool>) -> bool {
    forall|id: int|
        0 <= id < s.len() && #[trigger] s[id] ==> id != a.sink_black && id != a.sink_white && stays_in(a, s, id)
}

/// `r` is the largest trap of the arena.
pub open spec fn is_greatest_trap(a: Arena, r: Seq<bool>) -> bool {
    &&& r.len() == a.nodes@.len()
    &&& is_trap(a, r)
    &&& forall|s: Seq<bool>| s.len() == r.len() && #[trigger] is_trap(a, s) ==> forall|id: int| 0 <= id < r.len() && s[id] ==> r[id]
}

/// Whether node `id` keeps White inside `s`.
fn stays_in_exec(arena: &Arena, s: &Vec<bool>, id: usize) -> (b: bool)
    requires
        arena.wf(),
        id < arena.nodes@.len(),
        s@.len() == arena.nodes@.len(),
    ensures
        b == stays_in(*arena, s@, id as int),
{
    let ghost a = *arena;
    let succ = &arena.nodes[id].succ;
    let white = arena.nodes[id].turn == Turn::White;
    let mut some = false;
    let mut all = true;
    let mut k: usize = 0;
    while k < succ.len()
        invariant
            arena.wf(),
            a == *arena,
            id < arena.nodes@.len(),
            s@.len() == arena.nodes@.len(),
            succ@ == succ_of(a, id as int),
            k <= succ@.len(),
            some == exists|q: int| 0 <= q < k && s@[#[trigger] succ@[q] as int],
            all == forall|q: int| 0 <= q < k ==> s@[#[trigger] succ@[q] as int],
        decreases succ@.len() - k,
    {
        proof {
            assert(succ@[k as int] < arena.nodes@.len());
        }
        let x = succ[k];
        if s[x] {
            some = true;
        } else {
            all = false;
        }
        proof {
            assert(some == exists|q: int| 0 <= q < k + 1 && s@[#[trigger] succ@[q] as int]) by {
                if s@[x as int] {
                    assert(s@[succ@[k as int] as int]);
                }
            }
            assert(all == forall|q: int| 0 <= q < k + 1 ==> s@[#[trigger] succ@[q] as int]) by {
                if !s@[x as int] {
                    assert(!s@[succ@[k as int] as int]);
                }
            }
        }
        k += 1;
    }
    if white {
        some
    } else {
        all
    }
}

/// Computes the maximal safety trap inside the region: the largest set of nodes, sinks
/// excluded, from which White can keep the game inside the set forever.
///
/// Starting from every node but the sinks, nodes that cannot stay inside are removed, pass
/// after pass, until nothing changes.
pub fn safety_trap(arena: &Arena) -> (r: Vec<bool>)
    requires
        arena.wf(),
    ensures
        is_greatest_trap(*arena, r@),
{
    let ghost a = *arena;
    let n = arena.nodes.len();
    let mut in_set: Vec<bool> = Vec::new();
    let mut i: usize = 0;
    while i < n
        invariant
            n == a.nodes@.len(),
            i <= n,
            in_set@.len() == i,
            forall|j: int| 0 <= j < i ==> #[trigger] in_set@[j],
        decreases n - i,
    {
        in_set.push(true);
        i += 1;
    }
    in_set.set(arena.sink_black, false);
    in_set.set(arena.sink_white, false);
    proof {
        assert forall|s: Seq<bool>| s.len() == n && #[trigger] is_trap(a, s) implies forall|id: int| 0 <= id < n && s[id] ==> in_set@[id] by {
            assert forall|id: int| 0 <= id < n && s[id] implies in_set@[id] by {
                assert(id != a.sink_black && id != a.sink_white);
            }
        }
    }
    let mut changed = true;
    while changed
        invariant
            arena.wf(),
            a == *arena,
            n == a.nodes@.len(),
            in_set@.len() == n,
            !in_set@[a.sink_black as int],
            !in_set@[a.sink_white as int],
            forall|s: Seq<bool>| s.len() == n && #[trigger] is_trap(a, s) ==> forall|id: int| 0 <= id < n && s[id] ==> in_set@[id],
            !changed ==> forall|id: int| 0 <= id < n && #[trigger] in_set@[id] ==> stays_in(a, in_set@, id),
        decreases n - count_false(in_set@) + if changed { 1int } else { 0int },
    {
        proof {
            lemma_count_false_bound(in_set@);
        }
        changed = false;
        let ghost s0 = in_set@;
        let mut id: usize = 0;
        while id < n
            invariant
                arena.wf(),
                a == *arena,
                n == a.nodes@.len(),
                in_set@.len() == n,
                id <= n,
                !in_set@[a.sink_black as int],
                !in_set@[a.sink_white as int],
                forall|s: Seq<bool>| s.len() == n && #[trigger] is_trap(a, s) ==> forall|k: int| 0 <= k < n && s[k] ==> in_set@[k],
                !changed ==> in_set@ == s0,
                changed ==> count_false(in_set@) > count_false(s0),
                count_false(in_set@) >= count_false(s0),
                !changed ==> forall|q: int| 0 <= q < id && #[trigger] in_set@[q] ==> stays_in(a, in_set@, q),
            decreases n - id,
        {
            if in_set[id] && !stays_in_exec(arena, &in_set, id) {
                let ghost before = in_set@;
                proof {
                    lemma_count_false_clear(before, id as int);
                    assert forall|s: Seq<bool>| s.len() == n && #[trigger] is_trap(a, s) implies forall|k: int|
                        0 <= k < n && s[k] ==> before.update(id as int, false)[k] by {
                        assert forall|k: int| 0 <= k < n && s[k] implies before.update(id as int, false)[k] by {
                            if k == id {
                                assert(stays_in(a, s, k));
                                if a.nodes@[k].turn == Turn::White {
                                    let q = choose|q: int| 0 <= q < succ_of(a, k).len() && s[#[trigger] succ_of(a, k)[q] as int];
                                    assert(succ_of(a, k)[q] < n);
                                    assert(before[succ_of(a, k)[q] as int]);
                                    assert(some_succ(a, k, before));
                                } else {
                                    assert forall|q: int| 0 <= q < succ_of(a, k).len() implies before[#[trigger] succ_of(a, k)[q] as int] by {
                                        assert(succ_of(a, k)[q] < n);
                                        assert(s[succ_of(a, k)[q] as int]);
                                    }
                                    assert(every_succ(a, k, before));
                                }
                            }
                        }
                    }
                }
                in_set.set(id, false);
                changed = true;
            }
            id += 1;
        }
        proof {
            lemma_count_false_bound(in_set@);
        }
    }
    proof {
        assert(is_trap(a, in_set@));
    }
    in_set
}

} // verus!
