//! Attractors and the Büchi ("tempo") winning set on an arena.
use vstd::prelude::*;

use crate::arena::Arena;
use crate::pieces::Turn;
use crate::search::buchi::{count_false, lemma_count_false_bound, lemma_count_false_clear, lemma_count_false_set};

verus! {

/// The successors of node `id`.
pub open spec fn succ_of(a: Arena, id: int) -> Seq<usize> {
    a.nodes@[id].succ@
}

/// Some successor of `p` is in `s`.
pub open spec fn some_succ(a: Arena, p: int, s: Seq<bool>) -> bool {
    exists|k: int| 0 <= k < succ_of(a, p).len() && s[#[trigger] succ_of(a, p)[k] as int]
}

/// Every successor of `p` that is in `w` is in `s`.
pub open spec fn all_succ_in(a: Arena, p: int, w: Seq<bool>, s: Seq<bool>) -> bool {
    forall|k: int| 0 <= k < succ_of(a, p).len() && w[#[trigger] succ_of(a, p)[k] as int] ==> s[succ_of(a, p)[k] as int]
}

/// Node `p` is attracted to `s` within `w` for `player`: a node of `player` with a successor
/// in `s`, or a node of the other side with a successor in `w`, all of which are in `s`.
pub open spec fn attracted(a: Arena, w: Seq<bool>, player: Turn, s: Seq<bool>, p: int) -> bool {
    if a.nodes@[p].turn == player {
        some_succ(a, p, s)
    } else {
        some_succ(a, p, w) && all_succ_in(a, p, w, s)
    }
}

/// `s` contains the targets and every node of `w` attracted to it.
pub open spec fn attr_closed(a: Arena, w: Seq<bool>, target: Seq<bool>, player: Turn, s: Seq<bool>) -> bool {
    &&& forall|id: int| 0 <= id < s.len() && #[trigger] target[id] ==> s[id]
    &&& forall|p: int| 0 <= p < s.len() && w[p] && #[trigger] attracted(a, w, player, s, p) ==> s[p]
}

/// `r` is the attractor of `target` within `w` for `player`: the least closed set.
pub open spec fn is_attr(a: Arena, w: Seq<bool>, target: Seq<bool>, player: Turn, r: Seq<bool>) -> bool {
    &&& r.len() == a.nodes@.len()
    &&& attr_closed(a, w, target, player, r)
    &&& forall|s: Seq<bool>|
        s.len() == r.len() && #[trigger] attr_closed(a, w, target, player, s) ==> forall|id: int| 0 <= id < r.len() && r[id] ==> s[id]
}

/// Whether node `p` is attracted to `s` within `w` for `player`.
fn attracted_exec(arena: &Arena, w: &Vec<bool>, player: Turn, s: &Vec<bool>, p: usize) -> (b: bool)
    requires
        arena.wf(),
        p < arena.nodes@.len(),
        w@.len() == arena.nodes@.len(),
        s@.len() == arena.nodes@.len(),
    ensures
        b == attracted(*arena, w@, player, s@, p as int),
{
    let succ = &arena.nodes[p].succ;
    let ghost a = *arena;
    proof {
        assert(succ@ == succ_of(a, p as int));
    }
    if arena.nodes[p].turn == player {
        let mut k: usize = 0;
        while k < succ.len()
            invariant
                arena.wf(),
                p < arena.nodes@.len(),
                s@.len() == arena.nodes@.len(),
                succ@ == succ_of(a, p as int),
                a == *arena,
                a.nodes@[p as int].turn == player,
                k <= succ@.len(),
                forall|q: int| 0 <= q < k ==> !s@[#[trigger] succ@[q] as int],
            decreases succ@.len() - k,
        {
            proof {
                assert(succ@[k as int] < arena.nodes@.len());
            }
            if s[succ[k]] {
                proof {
                    assert(s@[succ_of(a, p as int)[k as int] as int]);
                }
                return true;
            }
            k += 1;
        }
        false
    } else {
        let mut some = false;
        let mut all = true;
        let mut k: usize = 0;
        while k < succ.len()
            invariant
                arena.wf(),
                p < arena.nodes@.len(),
                s@.len() == arena.nodes@.len(),
                w@.len() == arena.nodes@.len(),
                succ@ == succ_of(a, p as int),
                a == *arena,
                k <= succ@.len(),
                some == exists|q: int| 0 <= q < k && w@[#[trigger] succ@[q] as int],
                all == forall|q: int| 0 <= q < k && w@[#[trigger] succ@[q] as int] ==> s@[succ@[q] as int],
            decreases succ@.len() - k,
        {
            proof {
                assert(succ@[k as int] < arena.nodes@.len());
            }
            let x = succ[k];
            if w[x] {
                some = true;
                if !s[x] {
                    all = false;
                }
            }
            proof {
                assert(some == exists|q: int| 0 <= q < k + 1 && w@[#[trigger] succ@[q] as int]) by {
                    if w@[x as int] {
                        assert(w@[succ@[k as int] as int]);
                    }
                }
                assert(all == forall|q: int| 0 <= q < k + 1 && w@[#[trigger] succ@[q] as int] ==> s@[succ@[q] as int]) by {
                    if !all {
                        if w@[x as int] && !s@[x as int] {
                            assert(w@[succ@[k as int] as int] && !s@[succ@[k as int] as int]);
                        }
                    }
                }
            }
            k += 1;
        }
        some && all
    }
}

/// The attractor of `target` within `w` for `player`, computed by repeated passes until
/// nothing changes.
pub(crate) fn attractor(arena: &Arena, w: &Vec<bool>, target: &Vec<bool>, player: Turn) -> (r: Vec<bool>)
    requires
        arena.wf(),
        w@.len() == arena.nodes@.len(),
        target@.len() == arena.nodes@.len(),
    ensures
        is_attr(*arena, w@, target@, player, r@),
{
    let n = arena.nodes.len();
    let ghost a = *arena;
    let mut r: Vec<bool> = Vec::new();
    let mut i: usize = 0;
    while i < n
        invariant
            n == a.nodes@.len(),
            target@.len() == n,
            i <= n,
            r@.len() == i,
            forall|j: int| 0 <= j < i ==> #[trigger] r@[j] == target@[j],
        decreases n - i,
    {
        r.push(target[i]);
        i += 1;
    }
    let mut changed = true;
    proof {
        lemma_count_false_bound(r@);
    }
    while changed
        invariant
            arena.wf(),
            a == *arena,
            n == a.nodes@.len(),
            w@.len() == n,
            target@.len() == n,
            r@.len() == n,
            forall|id: int| 0 <= id < n && #[trigger] target@[id] ==> r@[id],
            forall|s: Seq<bool>|
                s.len() == n && #[trigger] attr_closed(a, w@, target@, player, s) ==> forall|id: int| 0 <= id < n && r@[id] ==> s[id],
            !changed ==> forall|p: int| 0 <= p < n && w@[p] && #[trigger] attracted(a, w@, player, r@, p) ==> r@[p],
        decreases count_false(r@) + if changed { 1int } else { 0int },
    {
        changed = false;
        let ghost r0 = r@;
        let mut p: usize = 0;
        while p < n
            invariant
                arena.wf(),
                a == *arena,
                n == a.nodes@.len(),
                w@.len() == n,
                target@.len() == n,
                r@.len() == n,
                p <= n,
                forall|id: int| 0 <= id < n && #[trigger] target@[id] ==> r@[id],
                forall|s: Seq<bool>|
                    s.len() == n && #[trigger] attr_closed(a, w@, target@, player, s) ==> forall|id: int| 0 <= id < n && r@[id] ==> s[id],
                forall|id: int| 0 <= id < n && r0[id] ==> #[trigger] r@[id],
                !changed ==> r@ == r0,
                changed ==> count_false(r@) < count_false(r0),
                !changed ==> forall|q: int| 0 <= q < p && w@[q] && #[trigger] attracted(a, w@, player, r@, q) ==> r@[q],
            decreases n - p,
        {
            if !r[p] && w[p] && attracted_exec(arena, w, player, &r, p) {
                let ghost before = r@;
                proof {
                    lemma_count_false_set(before, p as int);
                    assert forall|s: Seq<bool>|
                        s.len() == n && #[trigger] attr_closed(a, w@, target@, player, s) implies forall|id: int|
                            0 <= id < n && before.update(p as int, true)[id] ==> s[id] by {
                        assert forall|id: int| 0 <= id < n && before.update(p as int, true)[id] implies s[id] by {
                            if id == p {
                                lemma_attracted_mono(a, w@, player, before, s, p as int);
                                assert(attracted(a, w@, player, s, p as int));
                            }
                        }
                    }
                }
                r.set(p, true);
                changed = true;
            }
            p += 1;
        }
    }
    proof {
        assert(attr_closed(a, w@, target@, player, r@));
    }
    r
}

/// Attraction only grows with the attracting set.
proof fn lemma_attracted_mono(a: Arena, w: Seq<bool>, player: Turn, s1: Seq<bool>, s2: Seq<bool>, p: int)
    requires
        attracted(a, w, player, s1, p),
        s1.len() == s2.len(),
        forall|id: int| 0 <= id < s1.len() && s1[id] ==> s2[id],
        forall|k: int| 0 <= k < succ_of(a, p).len() ==> #[trigger] succ_of(a, p)[k] < s1.len(),
    ensures
        attracted(a, w, player, s2, p),
{
    if a.nodes@[p].turn == player {
        let k = choose|k: int| 0 <= k < succ_of(a, p).len() && s1[#[trigger] succ_of(a, p)[k] as int];
        assert(s2[succ_of(a, p)[k] as int]);
    } else {
        assert forall|k: int| 0 <= k < succ_of(a, p).len() && w[#[trigger] succ_of(a, p)[k] as int] implies s2[succ_of(a, p)[k] as int] by {
            assert(s1[succ_of(a, p)[k] as int]);
        }
    }
}

/// The attractor as a set: the nodes in every closed set.
pub open spec fn attr_set(a: Arena, w: Seq<bool>, target: Seq<bool>, player: Turn) -> Seq<bool> {
    Seq::new(
        a.nodes@.len(),
        |i: int|
            forall|s: Seq<bool>| s.len() == a.nodes@.len() && #[trigger] attr_closed(a, w, target, player, s) ==> s[i],
    )
}

/// The nodes in every closed set form the attractor.
pub proof fn lemma_attr_set(a: Arena, w: Seq<bool>, target: Seq<bool>, player: Turn)
    requires
        a.wf(),
    ensures
        is_attr(a, w, target, player, attr_set(a, w, target, player)),
{
    let r = attr_set(a, w, target, player);
    let n = a.nodes@.len();
    assert forall|id: int| 0 <= id < r.len() && #[trigger] target[id] implies r[id] by {
        assert forall|s: Seq<bool>| s.len() == n && #[trigger] attr_closed(a, w, target, player, s) implies s[id] by {}
    }
    assert forall|p: int| 0 <= p < r.len() && w[p] && #[trigger] attracted(a, w, player, r, p) implies r[p] by {
        assert forall|s: Seq<bool>| s.len() == n && #[trigger] attr_closed(a, w, target, player, s) implies s[p] by {
            assert forall|id: int| 0 <= id < r.len() && r[id] implies s[id] by {}
            assert forall|k: int| 0 <= k < succ_of(a, p).len() implies #[trigger] succ_of(a, p)[k] < r.len() by {}
            lemma_attracted_mono(a, w, player, r, s, p);
        }
    }
}

/// An attractor is the attractor set.
pub proof fn lemma_attr_unique(a: Arena, w: Seq<bool>, target: Seq<bool>, player: Turn, r: Seq<bool>)
    requires
        a.wf(),
        is_attr(a, w, target, player, r),
    ensures
        r == attr_set(a, w, target, player),
{
    lemma_attr_set(a, w, target, player);
    let t = attr_set(a, w, target, player);
    assert forall|i: int| 0 <= i < r.len() implies r[i] == t[i] by {
        if r[i] {
            assert forall|s: Seq<bool>| s.len() == a.nodes@.len() && #[trigger] attr_closed(a, w, target, player, s) implies s[i] by {}
        }
    }
    assert(r =~= t);
}

/// Entrywise `x && y`.
pub open spec fn and_seq(x: Seq<bool>, y: Seq<bool>) -> Seq<bool> {
    Seq::new(x.len(), |i: int| x[i] && y[i])
}

/// `z` lies in `base`, and White can keep the game in `z` while it stays in `base`: every
/// successor in `base` of a black node of `z` is in `z`, and a white node of `z` with a
/// successor in `base` has one in `z`.
pub open spec fn base_closed(a: Arena, base: Seq<bool>, z: Seq<bool>) -> bool {
    &&& z.len() == base.len()
    &&& forall|id: int|
        0 <= id < z.len() && #[trigger] z[id] ==> base[id] && if a.nodes@[id].turn == Turn::Black {
            all_succ_in(a, id, base, z)
        } else {
            some_succ(a, id, base) ==> some_succ(a, id, z)
        }
}

/// The accepting nodes of `z` from which play goes on inside `z`: an accepting white node
/// needs a successor in `z`.
pub open spec fn live_accept(a: Arena, z: Seq<bool>, accept: Seq<bool>) -> Seq<bool> {
    Seq::new(z.len(), |i: int| z[i] && accept[i] && (a.nodes@[i].turn == Turn::Black || some_succ(a, i, z)))
}

/// White wins the Büchi game on `z`: `z` is closed inside `base`, and from every node of `z`
/// White can force a visit to an accepting node of `z` from which play goes on in `z`, while
/// staying in `z`. So every white node of `z` has a successor in `z`.
pub open spec fn buchi_ok(a: Arena, base: Seq<bool>, accept: Seq<bool>, z: Seq<bool>) -> bool {
    &&& base_closed(a, base, z)
    &&& forall|i: int| 0 <= i < z.len() && z[i] ==> #[trigger] attr_set(a, z, live_accept(a, z, accept), Turn::White)[i]
}

/// `r` is the largest set on which White wins the Büchi game inside `base`.
pub open spec fn is_buchi_region(a: Arena, base: Seq<bool>, accept: Seq<bool>, r: Seq<bool>) -> bool {
    &&& r.len() == a.nodes@.len()
    &&& buchi_ok(a, base, accept, r)
    &&& forall|z: Seq<bool>| z.len() == r.len() && #[trigger] buchi_ok(a, base, accept, z) ==> forall|i: int| 0 <= i < r.len() && z[i] ==> r[i]
}

/// A Büchi-winning set inside `w` is inside White's attractor of the accepting nodes of `w`.
proof fn lemma_winning_in_attr(a: Arena, base: Seq<bool>, accept: Seq<bool>, w: Seq<bool>, z: Seq<bool>, big: Seq<bool>)
    requires
        a.wf(),
        base.len() == a.nodes@.len(),
        accept.len() == a.nodes@.len(),
        w.len() == a.nodes@.len(),
        forall|i: int| 0 <= i < w.len() && w[i] ==> base[i],
        z.len() == a.nodes@.len(),
        buchi_ok(a, base, accept, z),
        forall|i: int| 0 <= i < z.len() && z[i] ==> w[i],
        is_attr(a, w, live_accept(a, w, accept), Turn::White, big),
    ensures
        forall|i: int| 0 <= i < z.len() && z[i] ==> big[i],
{
    let n = a.nodes@.len();
    let tz = live_accept(a, z, accept);
    // `big` is closed under the rules inside `z`.
    assert(attr_closed(a, z, tz, Turn::White, big)) by {
        assert forall|id: int| 0 <= id < big.len() && #[trigger] tz[id] implies big[id] by {
            if a.nodes@[id].turn != Turn::Black {
                let k = choose|k: int| 0 <= k < succ_of(a, id).len() && z[#[trigger] succ_of(a, id)[k] as int];
                assert(succ_of(a, id)[k] < n);
                assert(w[succ_of(a, id)[k] as int]);
            }
            assert(live_accept(a, w, accept)[id]);
        }
        assert forall|p: int| 0 <= p < big.len() && z[p] && #[trigger] attracted(a, z, Turn::White, big, p) implies big[p] by {
            if a.nodes@[p].turn == Turn::White {
                assert(attracted(a, w, Turn::White, big, p));
            } else {
                let k0 = choose|k: int| 0 <= k < succ_of(a, p).len() && z[#[trigger] succ_of(a, p)[k] as int];
                assert(w[succ_of(a, p)[k0] as int]);
                assert forall|k: int| 0 <= k < succ_of(a, p).len() && w[#[trigger] succ_of(a, p)[k] as int] implies big[succ_of(a, p)[k] as int] by {
                    assert(succ_of(a, p)[k] < n);
                    assert(base[succ_of(a, p)[k] as int]);
                    assert(z[succ_of(a, p)[k] as int]);
                }
                assert(attracted(a, w, Turn::White, big, p));
            }
        }
    }
    assert forall|i: int| 0 <= i < z.len() && z[i] implies big[i] by {
        assert(attr_set(a, z, tz, Turn::White)[i]);
    }
}

/// Removing Black's attractor of the non-winning part keeps a Büchi-winning set.
proof fn lemma_winning_outside_black_attr(
    a: Arena,
    base: Seq<bool>,
    accept: Seq<bool>,
    w: Seq<bool>,
    big: Seq<bool>,
    bset: Seq<bool>,
    c: Seq<bool>,
    z: Seq<bool>,
)
    requires
        a.wf(),
        base.len() == a.nodes@.len(),
        w.len() == a.nodes@.len(),
        big.len() == a.nodes@.len(),
        forall|i: int| 0 <= i < w.len() && w[i] ==> base[i],
        bset == Seq::new(w.len(), |i: int| w[i] && !big[i]),
        is_attr(a, w, bset, Turn::Black, c),
        z.len() == a.nodes@.len(),
        base_closed(a, base, z),
        forall|i: int| 0 <= i < z.len() && z[i] ==> w[i] && big[i],
    ensures
        forall|i: int| 0 <= i < z.len() && z[i] ==> !c[i],
{
    let n = a.nodes@.len();
    let s = Seq::new(n, |i: int| w[i] && !z[i]);
    assert(attr_closed(a, w, bset, Turn::Black, s)) by {
        assert forall|id: int| 0 <= id < s.len() && #[trigger] bset[id] implies s[id] by {}
        assert forall|p: int| 0 <= p < s.len() && w[p] && #[trigger] attracted(a, w, Turn::Black, s, p) implies s[p] by {
            if z[p] {
                if a.nodes@[p].turn == Turn::Black {
                    let k = choose|k: int| 0 <= k < succ_of(a, p).len() && s[#[trigger] succ_of(a, p)[k] as int];
                    assert(succ_of(a, p)[k] < n);
                    assert(base[succ_of(a, p)[k] as int]);
                    assert(z[succ_of(a, p)[k] as int]);
                } else {
                    let k = choose|k: int| 0 <= k < succ_of(a, p).len() && w[#[trigger] succ_of(a, p)[k] as int];
                    assert(succ_of(a, p)[k] < n);
                    assert(some_succ(a, p, base));
                    let k2 = choose|k2: int| 0 <= k2 < succ_of(a, p).len() && z[#[trigger] succ_of(a, p)[k2] as int];
                    assert(succ_of(a, p)[k2] < n);
                    assert(w[succ_of(a, p)[k2] as int]);
                    assert(s[succ_of(a, p)[k2] as int]);
                }
            }
        }
    }
}

/// Entrywise `w && accept`.
fn and_vec(w: &Vec<bool>, accept: &Vec<bool>) -> (r: Vec<bool>)
    requires
        w@.len() == accept@.len(),
    ensures
        r@ == and_seq(w@, accept@),
{
    let mut r: Vec<bool> = Vec::new();
    let mut i: usize = 0;
    while i < w.len()
        invariant
            w@.len() == accept@.len(),
            i <= w@.len(),
            r@.len() == i,
            forall|j: int| 0 <= j < i ==> #[trigger] r@[j] == (w@[j] && accept@[j]),
        decreases w@.len() - i,
    {
        r.push(w[i] && accept[i]);
        i += 1;
    }
    assert(r@ =~= and_seq(w@, accept@));
    r
}

/// The accepting nodes of `w` from which play goes on inside `w`.
fn live_vec(arena: &Arena, w: &Vec<bool>, accept: &Vec<bool>) -> (r: Vec<bool>)
    requires
        arena.wf(),
        w@.len() == arena.nodes@.len(),
        accept@.len() == w@.len(),
    ensures
        r@ == live_accept(*arena, w@, accept@),
{
    let n = w.len();
    let mut r: Vec<bool> = Vec::new();
    let mut i: usize = 0;
    while i < n
        invariant
            arena.wf(),
            n == w@.len(),
            w@.len() == arena.nodes@.len(),
            accept@.len() == n,
            i <= n,
            r@.len() == i,
            forall|j: int| 0 <= j < i ==> #[trigger] r@[j] == live_accept(*arena, w@, accept@)[j],
        decreases n - i,
    {
        let mut v = false;
        if w[i] && accept[i] {
            if arena.nodes[i].turn == Turn::Black {
                v = true;
            } else {
                let succ = &arena.nodes[i].succ;
                let mut k: usize = 0;
                while k < succ.len()
                    invariant
                        arena.wf(),
                        n == w@.len(),
                        w@.len() == arena.nodes@.len(),
                        i < n,
                        succ@ == succ_of(*arena, i as int),
                        k <= succ@.len(),
                        v == exists|k2: int| 0 <= k2 < k && w@[#[trigger] succ@[k2] as int],
                    decreases succ@.len() - k,
                {
                    if succ[k] < n && w[succ[k]] {
                        v = true;
                    }
                    k += 1;
                }
            }
        }
        r.push(v);
        i += 1;
    }
    assert(r@ =~= live_accept(*arena, w@, accept@));
    r
}

/// White's Büchi winning set for visiting `accept` infinitely often while staying inside
/// `base`.
///
/// Starting from `base`, repeatedly: take White's attractor of the accepting nodes; if it
/// covers everything, stop; otherwise remove Black's attractor of the rest.
#[verifier::rlimit(40)]
pub fn buchi(arena: &Arena, base: &[bool], accept: &[bool]) -> (r: Vec<bool>)
    requires
        arena.wf(),
        base@.len() == arena.nodes@.len(),
        accept@.len() == arena.nodes@.len(),
    ensures
        is_buchi_region(*arena, base@, accept@, r@),
{
    let ghost a = *arena;
    let n = arena.nodes.len();
    let acc = vstd::slice::slice_to_vec(accept);
    let mut w = vstd::slice::slice_to_vec(base);
    let ghost bs = base@;
    let ghost ac = accept@;
    proof {
        assert(base_closed(a, bs, w@)) by {
            assert forall|id: int| 0 <= id < w@.len() && #[trigger] w@[id] implies bs[id] && if a.nodes@[id].turn == Turn::Black {
                all_succ_in(a, id, bs, w@)
            } else {
                some_succ(a, id, bs) ==> some_succ(a, id, w@)
            } by {}
        }
    }
    let mut any = false;
    let mut i: usize = 0;
    while i < n
        invariant
            acc@ == ac,
            ac.len() == n,
            i <= n,
            any == exists|j: int| 0 <= j < i && ac[j],
        decreases n - i,
    {
        if acc[i] {
            any = true;
        }
        i += 1;
    }
    if !any {
        let mut none: Vec<bool> = Vec::new();
        let mut i: usize = 0;
        while i < n
            invariant
                i <= n,
                none@.len() == i,
                forall|j: int| 0 <= j < i ==> !#[trigger] none@[j],
            decreases n - i,
        {
            none.push(false);
            i += 1;
        }
        proof {
            assert(buchi_ok(a, bs, ac, none@));
            assert forall|z: Seq<bool>| z.len() == n && #[trigger] buchi_ok(a, bs, ac, z) implies forall|k: int| 0 <= k < n && z[k] ==> none@[k] by {
                let empty = Seq::new(n as nat, |j: int| false);
                assert(attr_closed(a, z, live_accept(a, z, ac), Turn::White, empty)) by {
                    assert forall|p: int| 0 <= p < empty.len() && z[p] && #[trigger] attracted(a, z, Turn::White, empty, p) implies empty[p] by {
                        if a.nodes@[p].turn != Turn::White {
                            let k = choose|k: int| 0 <= k < succ_of(a, p).len() && z[#[trigger] succ_of(a, p)[k] as int];
                        }
                    }
                }
                assert forall|k: int| 0 <= k < n && z[k] implies none@[k] by {
                    assert(attr_set(a, z, live_accept(a, z, ac), Turn::White)[k]);
                    assert(empty[k]);
                }
            }
        }
        return none;
    }
    loop
        invariant
            arena.wf(),
            a == *arena,
            n == a.nodes@.len(),
            bs.len() == n,
            ac.len() == n,
            bs == base@,
            ac == accept@,
            acc@ == ac,
            w@.len() == n,
            forall|k: int| 0 <= k < n && w@[k] ==> bs[k],
            base_closed(a, bs, w@),
            forall|z: Seq<bool>| z.len() == n && #[trigger] buchi_ok(a, bs, ac, z) ==> forall|k: int| 0 <= k < n && z[k] ==> w@[k],
        ensures
            is_buchi_region(a, bs, ac, w@),
        decreases n - count_false(w@),
    {
        proof {
            lemma_count_false_bound(w@);
        }
        let target = live_vec(arena, &w, &acc);
        let att = attractor(arena, &w, &target, Turn::White);
        let mut has_b = false;
        let mut bset: Vec<bool> = Vec::new();
        let mut i: usize = 0;
        let ghost mut wit: int = 0;
        while i < n
            invariant
                n == a.nodes@.len(),
                w@.len() == n,
                att@.len() == n,
                i <= n,
                bset@.len() == i,
                forall|j: int| 0 <= j < i ==> #[trigger] bset@[j] == (w@[j] && !att@[j]),
                has_b ==> 0 <= wit < i && bset@[wit],
                !has_b ==> forall|j: int| 0 <= j < i ==> !#[trigger] bset@[j],
            decreases n - i,
        {
            let b = w[i] && !att[i];
            bset.push(b);
            if b {
                has_b = true;
                proof {
                    wit = i as int;
                }
            }
            i += 1;
        }
        proof {
            assert(bset@ =~= Seq::new(w@.len(), |j: int| w@[j] && !att@[j]));
            lemma_attr_unique(a, w@, live_accept(a, w@, ac), Turn::White, att@);
        }
        if !has_b {
            proof {
                assert(buchi_ok(a, bs, ac, w@)) by {
                    assert forall|k: int| 0 <= k < w@.len() && w@[k] implies #[trigger] attr_set(a, w@, live_accept(a, w@, ac), Turn::White)[k] by {
                        assert(!bset@[k]);
                    }
                }
            }
            return w;
        }
        let c = attractor(arena, &w, &bset, Turn::Black);
        let ghost w0 = w@;
        proof {
            assert forall|z: Seq<bool>| z.len() == n && #[trigger] buchi_ok(a, bs, ac, z) implies forall|k: int| 0 <= k < n && z[k] ==> w0[k] && !c@[k] by {
                lemma_winning_in_attr(a, bs, ac, w0, z, att@);
                lemma_winning_outside_black_attr(a, bs, ac, w0, att@, bset@, c@, z);
            }
            assert(c@[wit]);
        }
        let mut changed = false;
        let mut i: usize = 0;
        while i < n
            invariant
                n == a.nodes@.len(),
                w@.len() == n,
                c@.len() == n,
                w0.len() == n,
                i <= n,
                forall|j: int| 0 <= j < i ==> #[trigger] w@[j] == (w0[j] && !c@[j]),
                forall|j: int| i <= j < n ==> #[trigger] w@[j] == w0[j],
                count_false(w@) >= count_false(w0),
                changed ==> count_false(w@) > count_false(w0),
                !changed ==> forall|j: int| 0 <= j < i ==> !(w0[j] && #[trigger] c@[j]),
            decreases n - i,
        {
            if w[i] && c[i] {
                proof {
                    lemma_count_false_clear(w@, i as int);
                }
                w.set(i, false);
                changed = true;
            }
            i += 1;
        }
        if !changed {
            proof {
                assert(0 <= wit < n);
                assert(w0[wit]);
                assert(c@[wit]);
                assert(!(w0[wit] && c@[wit]));
                assert(false);
            }
            return w;
        }
        proof {
            lemma_count_false_bound(w@);
            let wn = w@;
            assert(base_closed(a, bs, wn)) by {
                assert forall|id: int| 0 <= id < wn.len() && #[trigger] wn[id] implies bs[id] && if a.nodes@[id].turn == Turn::Black {
                    all_succ_in(a, id, bs, wn)
                } else {
                    some_succ(a, id, bs) ==> some_succ(a, id, wn)
                } by {
                    assert(w0[id] && !c@[id]);
                    if a.nodes@[id].turn == Turn::Black {
                        assert forall|k: int| 0 <= k < succ_of(a, id).len() && bs[#[trigger] succ_of(a, id)[k] as int] implies wn[succ_of(a, id)[k] as int] by {
                            let x = succ_of(a, id)[k] as int;
                            assert(x < n);
                            assert(w0[x]);
                            if c@[x] {
                                assert(attracted(a, w0, Turn::Black, c@, id));
                            }
                        }
                    } else {
                        if some_succ(a, id, bs) {
                            assert(some_succ(a, id, w0));
                            if !some_succ(a, id, wn) {
                                assert forall|k: int| 0 <= k < succ_of(a, id).len() && w0[#[trigger] succ_of(a, id)[k] as int] implies c@[succ_of(a, id)[k] as int] by {
                                    let x = succ_of(a, id)[k] as int;
                                    assert(x < n);
                                    if !c@[x] {
                                        assert(wn[x]);
                                    }
                                }
                                assert(attracted(a, w0, Turn::Black, c@, id));
                            }
                        }
                    }
                }
            }
        }
    }
}

/// Whether `id` is the white node whose pass lands on a node of `safety`.
fn pass_stays(arena: &Arena, safety: &[bool], id: usize) -> (b: bool)
    requires
        id < arena.nodes@.len(),
        safety@.len() == arena.nodes@.len(),
    ensures
        b == (safety@[id as int] && arena.nodes@[id as int].turn == Turn::White && pass_partner(id as int) < safety@.len()
            && safety@[pass_partner(id as int)]),
{
    if !safety[id] {
        return false;
    }
    if arena.nodes[id].turn == Turn::White {
        let pass_to = id ^ 1;
        proof {
            lemma_xor_one(id);
        }
        if pass_to < safety.len() {
            return safety[pass_to];
        }
    }
    false
}

/// The node with the same state and the other side to move: `id ^ 1`.
pub open spec fn pass_partner(id: int) -> int {
    if id % 2 == 0 {
        id + 1
    } else {
        id - 1
    }
}

proof fn lemma_xor_one(id: usize)
    ensures
        (id ^ 1usize) == pass_partner(id as int),
{
    assert((id ^ 1usize) == if id % 2 == 0 { (id + 1) as usize } else { (id - 1) as usize }) by (bit_vector);
}

/// The accepting nodes of the tempo game: white nodes of `safety` whose pass keeps the game in
/// `safety`, when passing is allowed.
pub open spec fn tempo_accept(a: Arena, safety: Seq<bool>) -> Seq<bool> {
    Seq::new(
        a.nodes@.len(),
        |id: int|
            a.game.allow_pass && safety[id] && a.nodes@[id].turn == Turn::White && pass_partner(id) < safety.len()
                && safety[pass_partner(id)],
    )
}

/// Computes a tempo trap inside an existing safety trap: the Büchi winning set for visiting,
/// infinitely often, a white-to-move node where passing keeps the game inside the trap.
///
/// The paired node with the same state and the other side to move is `id ^ 1`.
pub fn tempo_trap(arena: &Arena, safety: &[bool]) -> (r: Vec<bool>)
    requires
        arena.wf(),
        safety@.len() == arena.nodes@.len(),
    ensures
        is_buchi_region(*arena, safety@, tempo_accept(*arena, safety@), r@),
{
    let n = arena.nodes.len();
    let mut accept: Vec<bool> = Vec::new();
    let mut id: usize = 0;
    while id < n
        invariant
            n == arena.nodes@.len(),
            safety@.len() == n,
            id <= n,
            accept@.len() == id,
            forall|j: int| 0 <= j < id ==> #[trigger] accept@[j] == tempo_accept(*arena, safety@)[j],
        decreases n - id,
    {
        let acc = arena.game.allow_pass && pass_stays(arena, safety, id);
        accept.push(acc);
        id += 1;
    }
    assert(accept@ =~= tempo_accept(*arena, safety@));
    buchi(arena, safety, accept.as_slice())
}

/// White's attractor of `target` inside `w`.
fn attractor_white(arena: &Arena, w: &Vec<bool>, target: &Vec<bool>) -> (r: Vec<bool>)
    requires
        arena.wf(),
        w@.len() == arena.nodes@.len(),
        target@.len() == arena.nodes@.len(),
    ensures
        is_attr(*arena, w@, target@, Turn::White, r@),
{
    attractor(arena, w, target, Turn::White)
}

/// Black's attractor of `target` inside `w`.
fn attractor_black(arena: &Arena, w: &Vec<bool>, target: &Vec<bool>) -> (r: Vec<bool>)
    requires
        arena.wf(),
        w@.len() == arena.nodes@.len(),
        target@.len() == arena.nodes@.len(),
    ensures
        is_attr(*arena, w@, target@, Turn::Black, r@),
{
    attractor(arena, w, target, Turn::Black)
}

} // verus!
