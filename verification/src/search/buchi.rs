//! Büchi-game solver for the "tempo trap" refinement.
//!
//! The game graph is bipartite:
//! - black nodes: the black-to-move states of an inescapable trap;
//! - white nodes: the states that arise right after a legal black king move.
//!
//! White chooses a reply (passing included, when allowed), and only replies that stay inside
//! the inescapable trap are kept. A white node is accepting when White may pass there and the
//! passed state is in the trap.

use vstd::prelude::*;

use crate::board::coord::Coord;
use crate::scenario::{fits_layout, invalid, DomainLike, LawsLike, Scenario, SearchError, State};
use crate::search::movegen::{legal_black_moves, legal_white_moves};
use crate::search::resources::{over_budget, over_budget_or_alloc, ResourceTracker};
use crate::search::store::{StateIndex, StateMoves, StateSet};

verus! {

/// Number of `false` entries of `s`.
pub open spec fn count_false(s: Seq<bool>) -> nat
    decreases s.len(),
{
    if s.len() == 0 {
        0
    } else {
        count_false(s.drop_last()) + if s.last() { 0nat } else { 1nat }
    }
}

/// Setting a `false` entry to `true` lowers the number of `false` entries by one; setting an
/// entry to `true` never raises it.
pub proof fn lemma_count_false_set(s: Seq<bool>, i: int)
    requires
        0 <= i < s.len(),
    ensures
        !s[i] ==> count_false(s.update(i, true)) + 1 == count_false(s),
        s[i] ==> count_false(s.update(i, true)) == count_false(s),
    decreases s.len(),
{
    let t = s.update(i, true);
    if i == s.len() - 1 {
        assert(t.drop_last() =~= s.drop_last());
    } else {
        assert(t.drop_last() =~= s.drop_last().update(i, true));
        lemma_count_false_set(s.drop_last(), i);
    }
}

/// The indices in `succ` are below `n`.
pub open spec fn succ_in_range(succ: Seq<Vec<usize>>, n: int) -> bool {
    forall|i: int, k: int| 0 <= i < succ.len() && 0 <= k < succ[i]@.len() ==> #[trigger] succ[i]@[k] < n
}

/// Some successor in `l` is in both `z` and `a`.
pub open spec fn some_succ_in(l: Seq<usize>, z: Seq<bool>, a: Seq<bool>) -> bool {
    exists|k: int| 0 <= k < l.len() && z[#[trigger] l[k] as int] && a[l[k] as int]
}

/// `l` has a successor in `z`, and every successor in `z` is in `a`.
pub open spec fn all_succ_in(l: Seq<usize>, z: Seq<bool>, a: Seq<bool>) -> bool {
    &&& exists|k: int| 0 <= k < l.len() && z[#[trigger] l[k] as int]
    &&& forall|k: int| 0 <= k < l.len() && z[#[trigger] l[k] as int] ==> a[l[k] as int]
}

/// `(s_e, s_u)` is closed under the attractor rules inside `(z_e, z_u)`: an existential node
/// in `z_e` is in `s_e` when it is a seed or has some successor in `z_u ∩ s_u`; a universal
/// node in `z_u` is in `s_u` when it is a seed or has a successor in `z_e` and all of them
/// are in `s_e`.
pub open spec fn attr_closed(
    z_e: Seq<bool>,
    z_u: Seq<bool>,
    e_succ: Seq<Vec<usize>>,
    u_succ: Seq<Vec<usize>>,
    seed_e: Seq<bool>,
    seed_u: Seq<bool>,
    s_e: Seq<bool>,
    s_u: Seq<bool>,
) -> bool {
    &&& forall|i: int| 0 <= i < z_e.len() && z_e[i] && (seed_e[i] || some_succ_in(e_succ[i]@, z_u, s_u)) ==> #[trigger] s_e[i]
    &&& forall|j: int| 0 <= j < z_u.len() && z_u[j] && (seed_u[j] || all_succ_in(u_succ[j]@, z_e, s_e)) ==> #[trigger] s_u[j]
}

/// `(a_e, a_u)` is the attractor of the seeds inside `(z_e, z_u)`: the least sets closed
/// under the attractor rules, contained in `(z_e, z_u)`.
pub open spec fn is_attractor(
    z_e: Seq<bool>,
    z_u: Seq<bool>,
    e_succ: Seq<Vec<usize>>,
    u_succ: Seq<Vec<usize>>,
    seed_e: Seq<bool>,
    seed_u: Seq<bool>,
    a_e: Seq<bool>,
    a_u: Seq<bool>,
) -> bool {
    &&& a_e.len() == z_e.len()
    &&& a_u.len() == z_u.len()
    &&& forall|i: int| 0 <= i < a_e.len() && #[trigger] a_e[i] ==> z_e[i]
    &&& forall|j: int| 0 <= j < a_u.len() && #[trigger] a_u[j] ==> z_u[j]
    &&& attr_closed(z_e, z_u, e_succ, u_succ, seed_e, seed_u, a_e, a_u)
    &&& forall|s_e: Seq<bool>, s_u: Seq<bool>|
        s_e.len() == z_e.len() && s_u.len() == z_u.len()
            && #[trigger] attr_closed(z_e, z_u, e_succ, u_succ, seed_e, seed_u, s_e, s_u) ==> {
            &&& forall|i: int| 0 <= i < a_e.len() && a_e[i] ==> s_e[i]
            &&& forall|j: int| 0 <= j < a_u.len() && a_u[j] ==> s_u[j]
        }
}

/// `(a_e, a_u)` is contained in every closed pair of sets.
pub open spec fn below_all_closed(
    z_e: Seq<bool>,
    z_u: Seq<bool>,
    e_succ: Seq<Vec<usize>>,
    u_succ: Seq<Vec<usize>>,
    seed_e: Seq<bool>,
    seed_u: Seq<bool>,
    a_e: Seq<bool>,
    a_u: Seq<bool>,
) -> bool {
    forall|s_e: Seq<bool>, s_u: Seq<bool>|
        s_e.len() == z_e.len() && s_u.len() == z_u.len()
            && #[trigger] attr_closed(z_e, z_u, e_succ, u_succ, seed_e, seed_u, s_e, s_u) ==> {
            &&& forall|i: int| 0 <= i < a_e.len() && a_e[i] ==> s_e[i]
            &&& forall|j: int| 0 <= j < a_u.len() && a_u[j] ==> s_u[j]
        }
}

/// A vector of `n` copies of `v`.
pub(crate) fn filled(n: usize, v: bool) -> (r: Vec<bool>)
    ensures
        r@.len() == n,
        forall|i: int| 0 <= i < n ==> #[trigger] r@[i] == v,
{
    let mut r: Vec<bool> = Vec::new();
    let mut i: usize = 0;
    while i < n
        invariant
            i <= n,
            r@.len() == i,
            forall|j: int| 0 <= j < i ==> #[trigger] r@[j] == v,
        decreases n - i,
    {
        r.push(v);
        i += 1;
    }
    r
}

/// Attractor of the seeds inside `(z_e, z_u)` for the player owning the existential nodes,
/// computed by repeated passes (existential nodes first, then universal nodes) until nothing
/// changes. The witness of an existential node in the attractor is a successor inside
/// `z_u ∩ a_u` through which it joined.
#[verifier::rlimit(40)]
pub(crate) fn attractor_core(
    z_e: &Vec<bool>,
    z_u: &Vec<bool>,
    e_succ: &Vec<Vec<usize>>,
    u_succ: &Vec<Vec<usize>>,
    seed_e: &Vec<bool>,
    seed_u: &Vec<bool>,
) -> (r: (Vec<bool>, Vec<bool>, Vec<Option<usize>>))
    requires
        e_succ@.len() == z_e@.len(),
        u_succ@.len() == z_u@.len(),
        seed_e@.len() == z_e@.len(),
        seed_u@.len() == z_u@.len(),
        succ_in_range(e_succ@, z_u@.len() as int),
        succ_in_range(u_succ@, z_e@.len() as int),
    ensures
        is_attractor(z_e@, z_u@, e_succ@, u_succ@, seed_e@, seed_u@, r.0@, r.1@),
        r.2@.len() == z_e@.len(),
        forall|i: int| 0 <= i < r.2@.len() && (#[trigger] r.2@[i]) is Some ==> {
            let w = r.2@[i]->Some_0;
            &&& r.0@[i]
            &&& exists|k: int| 0 <= k < e_succ@[i]@.len() && e_succ@[i]@[k] == w
            &&& w < z_u@.len()
            &&& z_u@[w as int]
            &&& r.1@[w as int]
        },
{
    let ne = z_e.len();
    let nu = z_u.len();
    let mut a_e = filled(ne, false);
    let mut a_u = filled(nu, false);
    let mut witness: Vec<Option<usize>> = Vec::new();
    let mut t: usize = 0;
    while t < ne
        invariant
            t <= ne,
            witness@.len() == t,
            forall|j: int| 0 <= j < t ==> #[trigger] witness@[j] is None,
        decreases ne - t,
    {
        witness.push(None);
        t += 1;
    }
    let ghost ze = z_e@;
    let ghost zu = z_u@;
    let ghost es = e_succ@;
    let ghost us = u_succ@;
    let ghost se = seed_e@;
    let ghost su = seed_u@;
    // Seeds.
    let mut i: usize = 0;
    while i < ne
        invariant
            i <= ne,
            ne == ze.len(),
            ze == z_e@,
            se == seed_e@,
            seed_e@.len() == ne,
            a_e@.len() == ne,
            forall|j: int| 0 <= j < ne && #[trigger] a_e@[j] ==> ze[j] && se[j],
            forall|j: int| 0 <= j < i ==> (#[trigger] a_e@[j] <==> ze[j] && se[j]),
        decreases ne - i,
    {
        if z_e[i] && seed_e[i] {
            a_e.set(i, true);
        }
        i += 1;
    }
    let mut j: usize = 0;
    while j < nu
        invariant
            j <= nu,
            nu == zu.len(),
            zu == z_u@,
            su == seed_u@,
            seed_u@.len() == nu,
            a_u@.len() == nu,
            forall|k: int| 0 <= k < nu && #[trigger] a_u@[k] ==> zu[k] && su[k],
            forall|k: int| 0 <= k < j ==> (#[trigger] a_u@[k] <==> zu[k] && su[k]),
        decreases nu - j,
    {
        if z_u[j] && seed_u[j] {
            a_u.set(j, true);
        }
        j += 1;
    }
    proof {
        assert forall|s_e: Seq<bool>, s_u: Seq<bool>|
            s_e.len() == ze.len() && s_u.len() == zu.len()
                && #[trigger] attr_closed(ze, zu, es, us, se, su, s_e, s_u) implies {
                &&& forall|i: int| 0 <= i < a_e@.len() && a_e@[i] ==> s_e[i]
                &&& forall|j: int| 0 <= j < a_u@.len() && a_u@[j] ==> s_u[j]
            } by {
            assert forall|i: int| 0 <= i < a_e@.len() && a_e@[i] implies s_e[i] by {
                assert(ze[i] && se[i]);
            }
            assert forall|j: int| 0 <= j < a_u@.len() && a_u@[j] implies s_u[j] by {
                assert(zu[j] && su[j]);
            }
        }
    }
    let mut changed = true;
    while changed
        invariant
            ne == ze.len(),
            nu == zu.len(),
            ze == z_e@,
            zu == z_u@,
            es == e_succ@,
            us == u_succ@,
            se == seed_e@,
            su == seed_u@,
            es.len() == ne,
            us.len() == nu,
            se.len() == ne,
            su.len() == nu,
            succ_in_range(es, nu as int),
            succ_in_range(us, ne as int),
            a_e@.len() == ne,
            a_u@.len() == nu,
            witness@.len() == ne,
            forall|i: int| 0 <= i < ne && #[trigger] a_e@[i] ==> ze[i],
            forall|j: int| 0 <= j < nu && #[trigger] a_u@[j] ==> zu[j],
            forall|i: int| 0 <= i < ne && ze[i] && se[i] ==> #[trigger] a_e@[i],
            forall|j: int| 0 <= j < nu && zu[j] && su[j] ==> #[trigger] a_u@[j],
            below_all_closed(ze, zu, es, us, se, su, a_e@, a_u@),
            forall|i: int| 0 <= i < witness@.len() && (#[trigger] witness@[i]) is Some ==> {
                let w = witness@[i]->Some_0;
                &&& a_e@[i]
                &&& exists|k: int| 0 <= k < es[i]@.len() && es[i]@[k] == w
                &&& w < nu
                &&& zu[w as int]
                &&& a_u@[w as int]
            },
            !changed ==> attr_closed(ze, zu, es, us, se, su, a_e@, a_u@),
        decreases count_false(a_e@) + count_false(a_u@) + if changed { 1nat } else { 0nat },
    {
        changed = false;
        let ghost start_e = a_e@;
        let ghost start_u = a_u@;
        let mut i: usize = 0;
        while i < ne
            invariant
                i <= ne,
                ne == ze.len(),
                nu == zu.len(),
                ze == z_e@,
                zu == z_u@,
                es == e_succ@,
                us == u_succ@,
                se == seed_e@,
                su == seed_u@,
                es.len() == ne,
                us.len() == nu,
                se.len() == ne,
                su.len() == nu,
                succ_in_range(es, nu as int),
                succ_in_range(us, ne as int),
                a_e@.len() == ne,
                a_u@.len() == nu,
                witness@.len() == ne,
                a_u@ == start_u,
                forall|i2: int| 0 <= i2 < ne && #[trigger] a_e@[i2] ==> ze[i2],
                forall|j2: int| 0 <= j2 < nu && #[trigger] a_u@[j2] ==> zu[j2],
                forall|i2: int| 0 <= i2 < ne && ze[i2] && se[i2] ==> #[trigger] a_e@[i2],
                forall|j2: int| 0 <= j2 < nu && zu[j2] && su[j2] ==> #[trigger] a_u@[j2],
                below_all_closed(ze, zu, es, us, se, su, a_e@, a_u@),
                forall|i2: int| 0 <= i2 < witness@.len() && (#[trigger] witness@[i2]) is Some ==> {
                    let w = witness@[i2]->Some_0;
                    &&& a_e@[i2]
                    &&& exists|k: int| 0 <= k < es[i2]@.len() && es[i2]@[k] == w
                    &&& w < nu
                    &&& zu[w as int]
                    &&& a_u@[w as int]
                },
                !changed ==> a_e@ == start_e,
                changed ==> count_false(a_e@) < count_false(start_e),
                count_false(a_e@) <= count_false(start_e),
                !changed ==> forall|i2: int| 0 <= i2 < i && ze[i2] && !a_e@[i2] ==> !#[trigger] some_succ_in(es[i2]@, zu, a_u@),
            decreases ne - i,
        {
            if z_e[i] && !a_e[i] {
                let succ = &e_succ[i];
                let mut k: usize = 0;
                let mut found: Option<usize> = None;
                while k < succ.len()
                    invariant
                        k <= succ@.len(),
                        succ@ == es[i as int]@,
                        i < ne,
                        es == e_succ@,
                        es.len() == ne,
                        succ_in_range(es, nu as int),
                        a_u@.len() == nu,
                        z_u@.len() == nu,
                        zu == z_u@,
                        found is None ==> forall|k2: int| 0 <= k2 < k ==> !(zu[#[trigger] succ@[k2] as int] && a_u@[succ@[k2] as int]),
                        found matches Some(w) ==> (exists|k2: int| 0 <= k2 < succ@.len() && succ@[k2] == w) && w < nu && zu[w as int] && a_u@[w as int],
                    ensures
                        found is None ==> forall|k2: int| 0 <= k2 < succ@.len() ==> !(zu[#[trigger] succ@[k2] as int] && a_u@[succ@[k2] as int]),
                        found matches Some(w) ==> (exists|k2: int| 0 <= k2 < succ@.len() && succ@[k2] == w) && w < nu && zu[w as int] && a_u@[w as int],
                    decreases succ@.len() - k,
                {
                    let w = succ[k];
                    proof {
                        assert(es[i as int]@[k as int] < nu);
                    }
                    if z_u[w] && a_u[w] {
                        found = Some(w);
                        break;
                    }
                    k += 1;
                }
                if let Some(w) = found {
                    proof {
                        lemma_count_false_set(a_e@, i as int);
                        let k2 = choose|k2: int| 0 <= k2 < succ@.len() && succ@[k2] == w;
                        assert(some_succ_in(es[i as int]@, zu, a_u@));
                    }
                    let ghost old_e = a_e@;
                    a_e.set(i, true);
                    witness.set(i, Some(w));
                    changed = true;
                    proof {
                        assert forall|s_e: Seq<bool>, s_u: Seq<bool>|
                            s_e.len() == ze.len() && s_u.len() == zu.len()
                                && #[trigger] attr_closed(ze, zu, es, us, se, su, s_e, s_u) implies {
                                &&& forall|i2: int| 0 <= i2 < a_e@.len() && a_e@[i2] ==> s_e[i2]
                                &&& forall|j2: int| 0 <= j2 < a_u@.len() && a_u@[j2] ==> s_u[j2]
                            } by {
                            assert(forall|i2: int| 0 <= i2 < old_e.len() && old_e[i2] ==> s_e[i2]);
                            assert(forall|j2: int| 0 <= j2 < a_u@.len() && a_u@[j2] ==> s_u[j2]);
                            assert(some_succ_in(es[i as int]@, zu, s_u));
                        }
                    }
                } else {
                    proof {
                        assert(!some_succ_in(es[i as int]@, zu, a_u@));
                    }
                }
            }
            i += 1;
        }
        let ghost mid_e = a_e@;
        let ghost changed_e = changed;
        let mut j: usize = 0;
        while j < nu
            invariant
                j <= nu,
                ne == ze.len(),
                nu == zu.len(),
                ze == z_e@,
                zu == z_u@,
                es == e_succ@,
                us == u_succ@,
                se == seed_e@,
                su == seed_u@,
                es.len() == ne,
                us.len() == nu,
                se.len() == ne,
                su.len() == nu,
                succ_in_range(es, nu as int),
                succ_in_range(us, ne as int),
                a_e@.len() == ne,
                a_u@.len() == nu,
                witness@.len() == ne,
                a_e@ == mid_e,
                forall|i2: int| 0 <= i2 < ne && #[trigger] a_e@[i2] ==> ze[i2],
                forall|j2: int| 0 <= j2 < nu && #[trigger] a_u@[j2] ==> zu[j2],
                forall|i2: int| 0 <= i2 < ne && ze[i2] && se[i2] ==> #[trigger] a_e@[i2],
                forall|j2: int| 0 <= j2 < nu && zu[j2] && su[j2] ==> #[trigger] a_u@[j2],
                below_all_closed(ze, zu, es, us, se, su, a_e@, a_u@),
                forall|i2: int| 0 <= i2 < witness@.len() && (#[trigger] witness@[i2]) is Some ==> {
                    let w = witness@[i2]->Some_0;
                    &&& a_e@[i2]
                    &&& exists|k: int| 0 <= k < es[i2]@.len() && es[i2]@[k] == w
                    &&& w < nu
                    &&& zu[w as int]
                    &&& a_u@[w as int]
                },
                changed_e ==> changed,
                !changed ==> a_u@ == start_u && a_e@ == start_e,
                !changed_e ==> a_e@ == start_e,
                changed ==> count_false(a_e@) + count_false(a_u@) < count_false(start_e) + count_false(start_u),
                count_false(a_u@) <= count_false(start_u),
                count_false(a_e@) <= count_false(start_e),
                !changed ==> forall|i2: int| 0 <= i2 < ne && ze[i2] && !a_e@[i2] ==> !#[trigger] some_succ_in(es[i2]@, zu, a_u@),
                !changed ==> forall|j2: int| 0 <= j2 < j && zu[j2] && !a_u@[j2] ==> !#[trigger] all_succ_in(us[j2]@, ze, a_e@),
            decreases nu - j,
        {
            if z_u[j] && !a_u[j] {
                let succ = &u_succ[j];
                let mut saw = false;
                let mut all_in = true;
                let mut k: usize = 0;
                while k < succ.len()
                    invariant_except_break
                        saw <==> exists|k2: int| 0 <= k2 < k && ze[#[trigger] succ@[k2] as int],
                    invariant
                        k <= succ@.len(),
                        succ@ == us[j as int]@,
                        j < nu,
                        us == u_succ@,
                        us.len() == nu,
                        succ_in_range(us, ne as int),
                        a_e@.len() == ne,
                        z_e@.len() == ne,
                        ze == z_e@,
                        all_in ==> forall|k2: int| 0 <= k2 < k && ze[#[trigger] succ@[k2] as int] ==> a_e@[succ@[k2] as int],
                        !all_in ==> exists|k2: int| 0 <= k2 < succ@.len() && ze[#[trigger] succ@[k2] as int] && !a_e@[succ@[k2] as int],
                    ensures
                        !all_in ==> exists|k2: int| 0 <= k2 < succ@.len() && ze[#[trigger] succ@[k2] as int] && !a_e@[succ@[k2] as int],
                        all_in ==> (saw <==> exists|k2: int| 0 <= k2 < succ@.len() && ze[#[trigger] succ@[k2] as int]),
                        all_in ==> forall|k2: int| 0 <= k2 < succ@.len() && ze[#[trigger] succ@[k2] as int] ==> a_e@[succ@[k2] as int],
                    decreases succ@.len() - k,
                {
                    let w = succ[k];
                    proof {
                        assert(us[j as int]@[k as int] < ne);
                    }
                    if z_e[w] {
                        saw = true;
                        if !a_e[w] {
                            all_in = false;
                            break;
                        }
                    }
                    k += 1;
                }
                if saw && all_in {
                    proof {
                        lemma_count_false_set(a_u@, j as int);
                        assert(all_succ_in(us[j as int]@, ze, a_e@));
                    }
                    let ghost old_u = a_u@;
                    a_u.set(j, true);
                    changed = true;
                    proof {
                        assert forall|s_e: Seq<bool>, s_u: Seq<bool>|
                            s_e.len() == ze.len() && s_u.len() == zu.len()
                                && #[trigger] attr_closed(ze, zu, es, us, se, su, s_e, s_u) implies {
                                &&& forall|i2: int| 0 <= i2 < a_e@.len() && a_e@[i2] ==> s_e[i2]
                                &&& forall|j2: int| 0 <= j2 < a_u@.len() && a_u@[j2] ==> s_u[j2]
                            } by {
                            assert(forall|i2: int| 0 <= i2 < a_e@.len() && a_e@[i2] ==> s_e[i2]);
                            assert(forall|j2: int| 0 <= j2 < old_u.len() && old_u[j2] ==> s_u[j2]);
                            assert(all_succ_in(us[j as int]@, ze, s_e));
                        }
                        assert forall|i2: int| 0 <= i2 < witness@.len() && (#[trigger] witness@[i2]) is Some implies {
                            let w = witness@[i2]->Some_0;
                            &&& a_e@[i2]
                            &&& exists|k: int| 0 <= k < es[i2]@.len() && es[i2]@[k] == w
                            &&& w < nu
                            &&& zu[w as int]
                            &&& a_u@[w as int]
                        } by {
                            let w = witness@[i2]->Some_0;
                            assert(old_u[w as int]);
                        }
                    }
                } else {
                    proof {
                        if saw {
                            assert(!all_in);
                        }
                        assert(!all_succ_in(us[j as int]@, ze, a_e@));
                    }
                }
            }
            j += 1;
        }
    }
    proof {
        assert(is_attractor(ze, zu, es, us, se, su, a_e@, a_u@));
    }
    (a_e, a_u, witness)
}


/// Setting a `true` entry to `false` raises the number of `false` entries by one; there are
/// never more `false` entries than entries.
pub proof fn lemma_count_false_clear(s: Seq<bool>, i: int)
    requires
        0 <= i < s.len(),
    ensures
        s[i] ==> count_false(s.update(i, false)) == count_false(s) + 1,
        count_false(s) <= s.len(),
    decreases s.len(),
{
    let t = s.update(i, false);
    lemma_count_false_bound(s);
    if i == s.len() - 1 {
        assert(t.drop_last() =~= s.drop_last());
    } else {
        assert(t.drop_last() =~= s.drop_last().update(i, false));
        lemma_count_false_clear(s.drop_last(), i);
    }
}

/// There are never more `false` entries than entries.
pub proof fn lemma_count_false_bound(s: Seq<bool>)
    ensures
        count_false(s) <= s.len(),
    decreases s.len(),
{
    if s.len() > 0 {
        lemma_count_false_bound(s.drop_last());
    }
}

/// The entries of `v` increase strictly.
pub open spec fn strictly_increasing(v: Seq<usize>) -> bool {
    forall|a: int, b: int| 0 <= a < b < v.len() ==> #[trigger] v[a] < #[trigger] v[b]
}

/// Inserts `x` into the strictly increasing `v`, keeping it strictly increasing (nothing
/// changes when `x` is already there).
pub(crate) fn sorted_insert(v: &mut Vec<usize>, x: usize)
    requires
        strictly_increasing(old(v)@),
    ensures
        strictly_increasing(final(v)@),
        forall|y: usize| #![trigger final(v)@.contains(y)] #![trigger old(v)@.contains(y)]
            final(v)@.contains(y) <==> (old(v)@.contains(y) || y == x),
{
    let mut i: usize = 0;
    while i < v.len() && v[i] < x
        invariant
            i <= v@.len(),
            forall|a: int| 0 <= a < i ==> #[trigger] v@[a] < x,
        decreases v@.len() - i,
    {
        i += 1;
    }
    if i < v.len() && v[i] == x {
        proof {
            assert(v@[i as int] == x);
        }
        return;
    }
    let ghost old_v = v@;
    v.insert(i, x);
    proof {
        assert forall|a: int, b: int| 0 <= a < b < v@.len() implies #[trigger] v@[a] < #[trigger] v@[b] by {
            if b < i {
            } else if b == i {
            } else if a < i {
                assert(v@[b] == old_v[b - 1]);
                if i < old_v.len() {
                    assert(old_v[i as int] > x);
                    assert(old_v[i as int] <= old_v[b - 1]);
                }
            } else if a == i {
                assert(v@[b] == old_v[b - 1]);
                assert(old_v[i as int] > x);
                if b - 1 > i {
                    assert(old_v[i as int] < old_v[b - 1]);
                }
            } else {
                assert(v@[a] == old_v[a - 1] && v@[b] == old_v[b - 1]);
            }
        }
        assert forall|y: usize| #![trigger v@.contains(y)] #![trigger old_v.contains(y)] v@.contains(y) <==> (old_v.contains(y) || y == x) by {
            if old_v.contains(y) {
                let a = choose|a: int| 0 <= a < old_v.len() && old_v[a] == y;
                if a < i {
                    assert(v@[a] == y);
                } else {
                    assert(v@[a + 1] == y);
                }
            }
            if y == x {
                assert(v@[i as int] == y);
            }
            if v@.contains(y) {
                let a = choose|a: int| 0 <= a < v@.len() && v@[a] == y;
                if a < i {
                    assert(old_v[a] == y);
                } else if a > i {
                    assert(old_v[a - 1] == y);
                }
            }
        }
    }
}

/// `n` entries, all `false`.
pub open spec fn no_seeds(n: nat) -> Seq<bool> {
    Seq::new(n, |i: int| false)
}

/// Every entry set in `a` is set in `b`.
pub open spec fn bools_sub(a: Seq<bool>, b: Seq<bool>) -> bool {
    forall|i: int| 0 <= i < a.len() && a[i] ==> #[trigger] b[i]
}

/// White wins the Büchi game of the graph on the nodes `(rw, rb)`: a black node of them has
/// all its successors among them, a white node of them a successor among them, and every node
/// of them lies in each set that is closed under White's attraction to the accepting nodes
/// inside them.
pub open spec fn graph_winning(wb: Seq<Vec<usize>>, bw: Seq<Vec<usize>>, acc: Seq<bool>, rw: Seq<bool>, rb: Seq<bool>) -> bool {
    &&& rw.len() == wb.len()
    &&& rb.len() == bw.len()
    &&& acc.len() == wb.len()
    &&& black_closed(rb, rw, bw)
    &&& forall|i: int| 0 <= i < rw.len() && #[trigger] rw[i] ==> some_succ_in(wb[i]@, rb, rb)
    &&& forall|sw: Seq<bool>, sb: Seq<bool>| sw.len() == rw.len() && sb.len() == rb.len()
        && #[trigger] attr_closed(rw, rb, wb, bw, acc, no_seeds(rb.len()), sw, sb)
        ==> bools_sub(rw, sw) && bools_sub(rb, sb)
}

/// A winning pair inside `(zw, zb)` lies in White's attractor of the accepting nodes there.
proof fn lemma_winning_in_attractor(
    wb: Seq<Vec<usize>>, bw: Seq<Vec<usize>>, acc: Seq<bool>,
    zw: Seq<bool>, zb: Seq<bool>, yw: Seq<bool>, yb: Seq<bool>, rw: Seq<bool>, rb: Seq<bool>,
)
    requires
        graph_winning(wb, bw, acc, rw, rb),
        zw.len() == wb.len(),
        zb.len() == bw.len(),
        bools_sub(rw, zw),
        bools_sub(rb, zb),
        succ_in_range(wb, zb.len() as int),
        succ_in_range(bw, zw.len() as int),
        is_attractor(zw, zb, wb, bw, acc, no_seeds(zb.len()), yw, yb),
    ensures
        bools_sub(rw, yw),
        bools_sub(rb, yb),
{
    let sw = Seq::new(rw.len(), |i: int| rw[i] && yw[i]);
    let sb = Seq::new(rb.len(), |i: int| rb[i] && yb[i]);
    assert(attr_closed(rw, rb, wb, bw, acc, no_seeds(rb.len()), sw, sb)) by {
        assert forall|i: int| 0 <= i < rw.len() && rw[i] && (acc[i] || some_succ_in(wb[i]@, rb, sb)) implies #[trigger] sw[i] by {
            assert(zw[i]);
            if !acc[i] {
                let k = choose|k: int| 0 <= k < wb[i]@.len() && rb[#[trigger] wb[i]@[k] as int] && sb[wb[i]@[k] as int];
                assert(wb[i]@[k] < zb.len());
                assert(zb[wb[i]@[k] as int] && yb[wb[i]@[k] as int]);
                assert(some_succ_in(wb[i]@, zb, yb));
            }
        }
        assert forall|j: int| 0 <= j < rb.len() && rb[j] && (no_seeds(rb.len())[j] || all_succ_in(bw[j]@, rw, sw)) implies #[trigger] sb[j] by {
            assert(zb[j]);
            let k = choose|k: int| 0 <= k < bw[j]@.len() && rw[#[trigger] bw[j]@[k] as int];
            assert(bw[j]@[k] < zw.len());
            assert(zw[bw[j]@[k] as int]);
            assert forall|k2: int| 0 <= k2 < bw[j]@.len() && zw[#[trigger] bw[j]@[k2] as int] implies yw[bw[j]@[k2] as int] by {
                assert(rw[bw[j]@[k2] as int]);
                assert(sw[bw[j]@[k2] as int]);
            }
            assert(all_succ_in(bw[j]@, zw, yw));
        }
    }
    assert forall|i: int| 0 <= i < rw.len() && rw[i] implies #[trigger] yw[i] by {
        assert(sw[i]);
    }
    assert forall|i: int| 0 <= i < rb.len() && rb[i] implies #[trigger] yb[i] by {
        assert(sb[i]);
    }
}

/// A winning pair inside `(zw, zb)` and inside the attractor `(yw, yb)` avoids Black's
/// attractor of the rest.
proof fn lemma_winning_outside_black(
    wb: Seq<Vec<usize>>, bw: Seq<Vec<usize>>, acc: Seq<bool>,
    zw: Seq<bool>, zb: Seq<bool>, yw: Seq<bool>, yb: Seq<bool>, tb: Seq<bool>, tw: Seq<bool>,
    xb: Seq<bool>, xw: Seq<bool>, rw: Seq<bool>, rb: Seq<bool>,
)
    requires
        graph_winning(wb, bw, acc, rw, rb),
        zw.len() == wb.len(),
        zb.len() == bw.len(),
        bools_sub(rw, zw),
        bools_sub(rb, zb),
        bools_sub(rw, yw),
        bools_sub(rb, yb),
        tb.len() == zb.len(),
        tw.len() == zw.len(),
        forall|i: int| 0 <= i < tb.len() ==> #[trigger] tb[i] == (zb[i] && !yb[i]),
        forall|i: int| 0 <= i < tw.len() ==> #[trigger] tw[i] == (zw[i] && !yw[i]),
        is_attractor(zb, zw, bw, wb, tb, tw, xb, xw),
        succ_in_range(wb, zb.len() as int),
        succ_in_range(bw, zw.len() as int),
    ensures
        forall|i: int| 0 <= i < rb.len() && rb[i] ==> !#[trigger] xb[i],
        forall|i: int| 0 <= i < rw.len() && rw[i] ==> !#[trigger] xw[i],
{
    let sb = Seq::new(zb.len(), |i: int| zb[i] && !rb[i]);
    let sw = Seq::new(zw.len(), |i: int| zw[i] && !rw[i]);
    assert(attr_closed(zb, zw, bw, wb, tb, tw, sb, sw)) by {
        assert forall|i: int| 0 <= i < zb.len() && zb[i] && (tb[i] || some_succ_in(bw[i]@, zw, sw)) implies #[trigger] sb[i] by {
            if rb[i] {
                assert(yb[i]);
                assert(!tb[i]);
                let k = choose|k: int| 0 <= k < bw[i]@.len() && zw[#[trigger] bw[i]@[k] as int] && sw[bw[i]@[k] as int];
                assert(black_closed(rb, rw, bw));
                assert(rw[bw[i]@[k] as int]);
                assert(!sw[bw[i]@[k] as int]);
            }
        }
        assert forall|j: int| 0 <= j < zw.len() && zw[j] && (tw[j] || all_succ_in(wb[j]@, zb, sb)) implies #[trigger] sw[j] by {
            if rw[j] {
                assert(yw[j]);
                assert(!tw[j]);
                assert(some_succ_in(wb[j]@, rb, rb));
                let k = choose|k: int| 0 <= k < wb[j]@.len() && rb[#[trigger] wb[j]@[k] as int] && rb[wb[j]@[k] as int];
                assert(wb[j]@[k] < zb.len());
                assert(zb[wb[j]@[k] as int]);
                assert(!sb[wb[j]@[k] as int]);
            }
        }
    }
}

/// The game graph of the tempo trap and the candidate winning region.
struct BuchiGraph {
    b_list: Vec<State>,
    b_index: StateIndex,
    w_list: Vec<State>,
    w_index: StateIndex,
    bw_succ: Vec<Vec<usize>>,
    wb_succ: Vec<Vec<usize>>,
    is_accept_w: Vec<bool>,
    in_z_b: Vec<bool>,
    in_z_w: Vec<bool>,
}

/// `w` is accepting: White may pass there and the passed state is a black node.
pub open spec fn accepting<D, L: LawsLike, P>(scn: Scenario<D, L, P>, btm: Set<State>, w: State) -> bool {
    scn.white_can_pass && scn.laws.allows_pass(w) && btm.contains(w)
}

/// Every successor of a black node of the region is a white node of the region.
pub open spec fn black_closed(z_b: Seq<bool>, z_w: Seq<bool>, bw: Seq<Vec<usize>>) -> bool {
    forall|bi: int, k: int| 0 <= bi < z_b.len() && z_b[bi] && 0 <= k < bw[bi]@.len()
        ==> z_w[#[trigger] bw[bi]@[k] as int]
}

impl BuchiGraph {
    /// The nodes and edges of the graph are those of the game on the black nodes `btm`.
    spec fn graph_ok<D, L: LawsLike, P>(&self, scn: Scenario<D, L, P>, btm: Set<State>) -> bool {
        let bl = self.b_list@;
        let wl = self.w_list@;
        &&& bl.to_set() == btm
        &&& bl.no_duplicates()
        &&& forall|i: int| 0 <= i < bl.len() ==> scn.state_fits(#[trigger] bl[i])
        &&& forall|i: int| 0 <= i < wl.len() ==> scn.white_state_fits(#[trigger] wl[i])
        &&& forall|i: int| 0 <= i < wl.len() ==> black_move_from(scn, btm, #[trigger] wl[i])
        &&& indexes(self.b_index.view_map(), bl)
        &&& indexes(self.w_index.view_map(), wl)
        &&& self.bw_succ@.len() == bl.len()
        &&& self.wb_succ@.len() == wl.len()
        &&& forall|bi: int| 0 <= bi < bl.len() ==> #[trigger] black_edges_ok(scn, bl[bi], self.bw_succ@[bi]@, wl, self.w_index.view_map())
        &&& forall|wi: int| 0 <= wi < wl.len() ==> #[trigger] white_edges_ok(scn, wl[wi], self.wb_succ@[wi]@, bl, self.b_index.view_map())
        &&& self.is_accept_w@.len() == wl.len()
        &&& forall|wi: int| 0 <= wi < wl.len() ==> #[trigger] self.is_accept_w@[wi] == accepting(scn, btm, wl[wi])
        &&& self.in_z_b@.len() == bl.len()
        &&& self.in_z_w@.len() == wl.len()
    }

    /// Inside the region, White can force a visit to an accepting node from every node, and
    /// Black cannot leave the region.
    spec fn region_ok(&self) -> bool {
        &&& black_closed(self.in_z_b@, self.in_z_w@, self.bw_succ@)
        &&& exists|y_w: Seq<bool>, y_b: Seq<bool>| {
            &&& #[trigger] is_attractor(self.in_z_w@, self.in_z_b@, self.wb_succ@, self.bw_succ@,
                self.is_accept_w@, no_seeds(self.in_z_b@.len()), y_w, y_b)
            &&& forall|i: int| 0 <= i < self.in_z_b@.len() && self.in_z_b@[i] ==> y_b[i]
            &&& forall|i: int| 0 <= i < self.in_z_w@.len() && self.in_z_w@[i] ==> y_w[i]
        }
    }
}

/// The rules are usable and every state of `btm` fits the machine limits.
pub open spec fn buchi_inputs_ok<D, L: LawsLike, P>(scn: Scenario<D, L, P>, btm: Set<State>) -> bool {
    &&& scn.rules_ok()
    &&& forall|s: State| #[trigger] btm.contains(s) ==> scn.state_fits(s)
}

/// Checks that the rules are usable and that every state of `btm` fits the machine limits.
pub(crate) fn check_inputs<D: DomainLike, L: LawsLike, P>(scn: &Scenario<D, L, P>, btm: &StateSet) -> (r: Result<Vec<State>, SearchError>)
    ensures
        r is Ok <==> buchi_inputs_ok(*scn, btm.view_set()),
        r is Err ==> r->Err_0 is InvalidScenario,
        r is Ok ==> scn.rules_ok(),
        r is Ok ==> r->Ok_0@.to_set() == btm.view_set() && r->Ok_0@.no_duplicates(),
        r is Ok ==> forall|i: int| 0 <= i < r->Ok_0@.len() ==> scn.state_fits(#[trigger] r->Ok_0@[i]),
{
    proof {
        use_type_invariant(&scn.rules.layout);
    }
    let n = scn.rules.layout.piece_count();
    if n > 16 || scn.rules.move_bound < 1 || scn.rules.move_bound > 0x2000_0000 {
        return Err(invalid("rules need at most 16 pieces and a move bound in 1..=2^29"));
    }
    let v = btm.to_vec();
    let mut i: usize = 0;
    while i < v.len()
        invariant
            i <= v@.len(),
            n == scn.rules.layout.kinds_spec().len(),
            n <= 16,
            v@.to_set() == btm.view_set(),
            forall|j: int| 0 <= j < i ==> scn.state_fits(#[trigger] v@[j]),
        decreases v@.len() - i,
    {
        if !fits_layout(&v[i].pos, n, 0x2000_0000 - 1) || !v[i].abs_king.in_box(0x2000_0000) {
            proof {
                assert(v@.to_set().contains(v@[i as int]));
                assert(btm.view_set().contains(v@[i as int]));
                assert(!scn.state_fits(v@[i as int]));
            }
            return Err(invalid("a trap state does not fit the layout within the coordinate limits"));
        }
        i += 1;
    }
    proof {
        assert forall|s: State| #[trigger] btm.view_set().contains(s) implies scn.state_fits(s) by {
            assert(v@.to_set().contains(s));
            let j = choose|j: int| 0 <= j < v@.len() && v@[j] == s;
        }
    }
    Ok(v)
}


/// `idx` maps each state of `list` to its position, and nothing else.
pub open spec fn indexes(idx: Map<State, usize>, list: Seq<State>) -> bool {
    &&& forall|s: State| #[trigger] idx.contains_key(s) ==> idx[s] < list.len() && list[idx[s] as int] == s
    &&& forall|i: int| 0 <= i < list.len() ==> #[trigger] idx.contains_key(list[i]) && idx[list[i]] == i
}

/// The index of the black nodes.
pub(crate) fn index_states(list: &Vec<State>, tracker: &ResourceTracker, stage: &'static str, structure: &'static str) -> (r: Result<StateIndex, SearchError>)
    requires
        list@.no_duplicates(),
    ensures
        r is Ok ==> indexes(r->Ok_0.view_map(), list@),
        r is Err ==> r == Err::<StateIndex, SearchError>(SearchError::AllocationFailed { stage, structure, counts: tracker.counts_spec() }),
{
    let mut idx = StateIndex::new();
    if !idx.try_reserve(list.len()) {
        return Err(SearchError::AllocationFailed { stage, structure, counts: tracker.counts() });
    }
    let mut i: usize = 0;
    while i < list.len()
        invariant
            i <= list@.len(),
            list@.no_duplicates(),
            indexes(idx.view_map(), list@.take(i as int)),
        decreases list@.len() - i,
    {
        let ghost before = idx.view_map();
        idx.insert(list[i], i);
        proof {
            let t = list@.take(i as int + 1);
            assert forall|s: State| #[trigger] idx.view_map().contains_key(s) implies idx.view_map()[s] < t.len() && t[idx.view_map()[s] as int] == s by {
                if s != list@[i as int] {
                    assert(before.contains_key(s));
                    assert(list@.take(i as int)[before[s] as int] == s);
                }
            }
            assert forall|a: int| 0 <= a < t.len() implies #[trigger] idx.view_map().contains_key(t[a]) && idx.view_map()[t[a]] == a by {
                if a < i {
                    assert(list@.take(i as int)[a] == t[a]);
                    assert(t[a] != list@[i as int]);
                }
            }
        }
        i += 1;
    }
    proof {
        assert(list@.take(list@.len() as int) =~= list@);
    }
    Ok(idx)
}


/// The black-to-white edges of black node `b` are recorded in `succ` (as indices into `wl`,
/// whose index is `widx`): every recorded node is a legal black move of `b`, and every legal
/// black move of `b` is recorded.
pub open spec fn black_edges_ok<D, L: LawsLike, P>(
    scn: Scenario<D, L, P>,
    b: State,
    succ: Seq<usize>,
    wl: Seq<State>,
    widx: Map<State, usize>,
) -> bool {
    &&& strictly_increasing(succ)
    &&& forall|y: usize| #[trigger] succ.contains(y) ==> y < wl.len() && scn.legal_black_spec(scn.laws, b).contains(wl[y as int])
    &&& forall|i: int| 0 <= i < scn.legal_black_spec(scn.laws, b).len() ==>
        widx.contains_key(#[trigger] scn.legal_black_spec(scn.laws, b)[i])
            && succ.contains(widx[scn.legal_black_spec(scn.laws, b)[i]])
}

/// Growing the white list and its index keeps recorded edges valid.
proof fn lemma_black_edges_grow<D, L: LawsLike, P>(
    scn: Scenario<D, L, P>,
    b: State,
    succ: Seq<usize>,
    wl: Seq<State>,
    widx: Map<State, usize>,
    wl2: Seq<State>,
    widx2: Map<State, usize>,
)
    requires
        black_edges_ok(scn, b, succ, wl, widx),
        wl.len() <= wl2.len(),
        forall|i: int| 0 <= i < wl.len() ==> #[trigger] wl2[i] == wl[i],
        widx.submap_of(widx2),
    ensures
        black_edges_ok(scn, b, succ, wl2, widx2),
{
    assert forall|y: usize| #[trigger] succ.contains(y) implies y < wl2.len() && scn.legal_black_spec(scn.laws, b).contains(wl2[y as int]) by {
        assert(wl2[y as int] == wl[y as int]);
    }
    assert forall|i: int| 0 <= i < scn.legal_black_spec(scn.laws, b).len() implies
        widx2.contains_key(#[trigger] scn.legal_black_spec(scn.laws, b)[i])
            && succ.contains(widx2[scn.legal_black_spec(scn.laws, b)[i]]) by {
        assert(widx.contains_key(scn.legal_black_spec(scn.laws, b)[i]));
    }
}

/// The white nodes (the states after the legal black moves of the black nodes, each once, in
/// order of discovery) and the black-to-white edges.
fn black_edges<D: DomainLike, L: LawsLike, P>(
    scn: &Scenario<D, L, P>,
    b_list: &Vec<State>,
    tracker: &mut ResourceTracker,
) -> (r: Result<(Vec<State>, Vec<Vec<usize>>, StateIndex), SearchError>)
    requires
        scn.rules_ok(),
        forall|i: int| 0 <= i < b_list@.len() ==> scn.state_fits(#[trigger] b_list@[i]),
    ensures
        r is Ok ==> {
            let (wl, bw, widx) = r->Ok_0;
            &&& forall|i: int| 0 <= i < wl@.len() ==> scn.white_state_fits(#[trigger] wl@[i])
            &&& indexes(widx.view_map(), wl@)
            &&& bw@.len() == b_list@.len()
            &&& forall|bi: int| 0 <= bi < bw@.len() ==> #[trigger] black_edges_ok(*scn, b_list@[bi], bw@[bi]@, wl@, widx.view_map())
            &&& forall|i: int| 0 <= i < wl@.len() ==> black_move_from(*scn, b_list@.to_set(), #[trigger] wl@[i])
        },
        final(tracker).limits_spec() == old(tracker).limits_spec(),
        r is Err ==> over_budget(old(tracker).limits_spec(), r->Err_0),
{
    let mut w_list: Vec<State> = Vec::new();
    let mut w_index = StateIndex::new();
    let mut bw_succ: Vec<Vec<usize>> = Vec::new();
    proof {
        assert(indexes(w_index.view_map(), w_list@));
    }
    let mut bi: usize = 0;
    while bi < b_list.len()
        invariant
            bi <= b_list@.len(),
            scn.rules_ok(),
            forall|i: int| 0 <= i < b_list@.len() ==> scn.state_fits(#[trigger] b_list@[i]),
            forall|i: int| 0 <= i < w_list@.len() ==> scn.white_state_fits(#[trigger] w_list@[i]),
            indexes(w_index.view_map(), w_list@),
            bw_succ@.len() == bi,
            forall|b2: int| 0 <= b2 < bi ==> #[trigger] black_edges_ok(*scn, b_list@[b2], bw_succ@[b2]@, w_list@, w_index.view_map()),
            tracker.limits_spec() == old(tracker).limits_spec(),
            forall|i: int| 0 <= i < w_list@.len() ==> black_move_from(*scn, b_list@.to_set(), #[trigger] w_list@[i]),
        decreases b_list@.len() - bi,
    {
        tracker.bump_steps("buchi_build_bw", 1)?;
        let b = b_list[bi];
        let moves = legal_black_moves(scn, &scn.laws, &b, tracker)?;
        let ghost wl0 = w_list@;
        let ghost wi0 = w_index.view_map();
        let mut succ_w: Vec<usize> = Vec::new();
        let mut m: usize = 0;
        while m < moves.len()
            invariant
                tracker.limits_spec() == old(tracker).limits_spec(),
                m <= moves@.len(),
                moves@ == scn.legal_black_spec(scn.laws, b),
                forall|i: int| 0 <= i < moves@.len() ==> scn.white_state_fits(#[trigger] moves@[i]),
                forall|i: int| 0 <= i < w_list@.len() ==> scn.white_state_fits(#[trigger] w_list@[i]),
                indexes(w_index.view_map(), w_list@),
                wl0.len() <= w_list@.len(),
                forall|i: int| 0 <= i < wl0.len() ==> #[trigger] w_list@[i] == wl0[i],
                wi0.submap_of(w_index.view_map()),
                strictly_increasing(succ_w@),
                forall|y: usize| #[trigger] succ_w@.contains(y) ==> y < w_list@.len() && moves@.contains(w_list@[y as int]),
                forall|i: int| 0 <= i < m ==> w_index.view_map().contains_key(#[trigger] moves@[i])
                    && succ_w@.contains(w_index.view_map()[moves@[i]]),
                b == b_list@[bi as int],
                bi < b_list@.len(),
                forall|i: int| 0 <= i < w_list@.len() ==> black_move_from(*scn, b_list@.to_set(), #[trigger] w_list@[i]),
            decreases moves@.len() - m,
        {
            let wpos = moves[m];
            let ghost wl1 = w_list@;
            let ghost wi1 = w_index.view_map();
            let wi = match w_index.get(&wpos) {
                Some(existing) => existing,
                None => {
                    let idx = w_list.len();
                    let ghost wl_before = w_list@;
                    w_list.push(wpos);
                    w_index.insert(wpos, idx);
                    proof {
                        assert(b_list@.to_set().contains(b_list@[bi as int]));
                        assert(scn.legal_black_spec(scn.laws, b)[m as int] == wpos);
                        assert(black_move_from(*scn, b_list@.to_set(), wpos));
                        assert forall|i: int| 0 <= i < w_list@.len() implies black_move_from(*scn, b_list@.to_set(), #[trigger] w_list@[i]) by {
                            if i < wl_before.len() {
                                assert(w_list@[i] == wl_before[i]);
                            }
                        }
                        assert forall|s: State| #[trigger] w_index.view_map().contains_key(s) implies w_index.view_map()[s] < w_list@.len()
                            && w_list@[w_index.view_map()[s] as int] == s by {
                            if s != wpos {
                                assert(wi1.contains_key(s));
                            }
                        }
                        assert forall|i: int| 0 <= i < w_list@.len() implies #[trigger] w_index.view_map().contains_key(w_list@[i])
                            && w_index.view_map()[w_list@[i]] == i by {
                            if i < wl1.len() {
                                assert(w_list@[i] == wl1[i]);
                                assert(wi1.contains_key(wl1[i]));
                            }
                        }
                    }
                    tracker.bump_states("buchi_white_nodes", 1)?;
                    idx
                },
            };
            let ghost sw = succ_w@;
            sorted_insert(&mut succ_w, wi);
            proof {
                assert(moves@.contains(moves@[m as int]));
                assert forall|y: usize| #[trigger] succ_w@.contains(y) implies y < w_list@.len() && moves@.contains(w_list@[y as int]) by {
                    if sw.contains(y) {
                        assert(w_list@[y as int] == wl1[y as int]);
                    }
                }
                assert forall|i: int| 0 <= i < m + 1 implies w_index.view_map().contains_key(#[trigger] moves@[i])
                    && succ_w@.contains(w_index.view_map()[moves@[i]]) by {
                    if i < m {
                        assert(wi1.contains_key(moves@[i]));
                        assert(sw.contains(wi1[moves@[i]]));
                    }
                }
            }
            m += 1;
        }
        proof {
            assert(black_edges_ok(*scn, b, succ_w@, w_list@, w_index.view_map()));
            assert forall|b2: int| 0 <= b2 < bi implies #[trigger] black_edges_ok(*scn, b_list@[b2], bw_succ@[b2]@, w_list@, w_index.view_map()) by {
                lemma_black_edges_grow(*scn, b_list@[b2], bw_succ@[b2]@, wl0, wi0, w_list@, w_index.view_map());
            }
        }
        let ghost bw0 = bw_succ@;
        bw_succ.push(succ_w);
        proof {
            assert forall|b2: int| 0 <= b2 < bi + 1 implies #[trigger] black_edges_ok(*scn, b_list@[b2], bw_succ@[b2]@, w_list@, w_index.view_map()) by {
                if b2 < bi {
                    assert(bw_succ@[b2] == bw0[b2]);
                }
            }
        }
        bi += 1;
    }
    Ok((w_list, bw_succ, w_index))
}


/// The white-to-black edges of white node `w` are recorded in `succ` (as indices into `bl`,
/// whose index is `bidx`): every recorded node is a legal reply, and every legal reply that is
/// a black node is recorded.
pub open spec fn white_edges_ok<D, L: LawsLike, P>(
    scn: Scenario<D, L, P>,
    w: State,
    succ: Seq<usize>,
    bl: Seq<State>,
    bidx: Map<State, usize>,
) -> bool {
    &&& strictly_increasing(succ)
    &&& forall|y: usize| #[trigger] succ.contains(y) ==> y < bl.len() && scn.legal_white_spec(scn.laws, w).contains(bl[y as int])
    &&& forall|j: int| 0 <= j < scn.legal_white_spec(scn.laws, w).len()
        && bidx.contains_key(#[trigger] scn.legal_white_spec(scn.laws, w)[j])
        ==> succ.contains(bidx[scn.legal_white_spec(scn.laws, w)[j]])
}

/// The white-to-black edges: for each white node, its legal replies that are black nodes.
fn white_edges<D: DomainLike, L: LawsLike, P>(
    scn: &Scenario<D, L, P>,
    b_list: &Vec<State>,
    b_index: &StateIndex,
    w_list: &Vec<State>,
    tracker: &mut ResourceTracker,
) -> (r: Result<Vec<Vec<usize>>, SearchError>)
    requires
        scn.rules_ok(),
        forall|i: int| 0 <= i < w_list@.len() ==> scn.white_state_fits(#[trigger] w_list@[i]),
        indexes(b_index.view_map(), b_list@),
    ensures
        r is Ok ==> r->Ok_0@.len() == w_list@.len(),
        r is Ok ==> forall|wi: int| 0 <= wi < w_list@.len() ==> #[trigger] white_edges_ok(*scn, w_list@[wi], r->Ok_0@[wi]@, b_list@, b_index.view_map()),
        final(tracker).limits_spec() == old(tracker).limits_spec(),
        r is Err ==> over_budget(old(tracker).limits_spec(), r->Err_0),
{
    let mut wb_succ: Vec<Vec<usize>> = Vec::new();
    let mut wi: usize = 0;
    while wi < w_list.len()
        invariant
            tracker.limits_spec() == old(tracker).limits_spec(),
            wi <= w_list@.len(),
            scn.rules_ok(),
            forall|i: int| 0 <= i < w_list@.len() ==> scn.white_state_fits(#[trigger] w_list@[i]),
            indexes(b_index.view_map(), b_list@),
            wb_succ@.len() == wi,
            forall|w2: int| 0 <= w2 < wi ==> #[trigger] white_edges_ok(*scn, w_list@[w2], wb_succ@[w2]@, b_list@, b_index.view_map()),
        decreases w_list@.len() - wi,
    {
        tracker.bump_steps("buchi_build_wb", 1)?;
        let w = w_list[wi];
        let replies = legal_white_moves(scn, &scn.laws, &w, tracker)?;
        let mut succ_b: Vec<usize> = Vec::new();
        let mut j: usize = 0;
        while j < replies.len()
            invariant
                tracker.limits_spec() == old(tracker).limits_spec(),
                j <= replies@.len(),
                replies@ == scn.legal_white_spec(scn.laws, w),
                indexes(b_index.view_map(), b_list@),
                strictly_increasing(succ_b@),
                forall|y: usize| #[trigger] succ_b@.contains(y) ==> y < b_list@.len() && replies@.contains(b_list@[y as int]),
                forall|j2: int| 0 <= j2 < j && b_index.view_map().contains_key(#[trigger] replies@[j2])
                    ==> succ_b@.contains(b_index.view_map()[replies@[j2]]),
            decreases replies@.len() - j,
        {
            let ghost sb = succ_b@;
            if let Some(bi) = b_index.get(&replies[j]) {
                sorted_insert(&mut succ_b, bi);
                proof {
                    assert(replies@.contains(replies@[j as int]));
                    assert forall|y: usize| #[trigger] succ_b@.contains(y) implies y < b_list@.len() && replies@.contains(b_list@[y as int]) by {
                        if !sb.contains(y) {
                            assert(y == bi);
                        }
                    }
                    assert forall|j2: int| 0 <= j2 < j + 1 && b_index.view_map().contains_key(#[trigger] replies@[j2])
                        implies succ_b@.contains(b_index.view_map()[replies@[j2]]) by {
                        if j2 < j {
                            assert(sb.contains(b_index.view_map()[replies@[j2]]));
                        }
                    }
                }
            }
            j += 1;
        }
        let ghost wb0 = wb_succ@;
        wb_succ.push(succ_b);
        proof {
            assert forall|w2: int| 0 <= w2 < wi + 1 implies #[trigger] white_edges_ok(*scn, w_list@[w2], wb_succ@[w2]@, b_list@, b_index.view_map()) by {
                if w2 < wi {
                    assert(wb_succ@[w2] == wb0[w2]);
                }
            }
        }
        wi += 1;
    }
    Ok(wb_succ)
}

/// The accepting flags of the white nodes.
fn accepting_flags<D: DomainLike, L: LawsLike, P>(
    scn: &Scenario<D, L, P>,
    b_list: &Vec<State>,
    b_index: &StateIndex,
    w_list: &Vec<State>,
) -> (r: Vec<bool>)
    requires
        indexes(b_index.view_map(), b_list@),
    ensures
        r@.len() == w_list@.len(),
        forall|wi: int| 0 <= wi < w_list@.len() ==> #[trigger] r@[wi] == accepting(*scn, b_list@.to_set(), w_list@[wi]),
{
    let mut r: Vec<bool> = Vec::new();
    let mut wi: usize = 0;
    while wi < w_list.len()
        invariant
            wi <= w_list@.len(),
            indexes(b_index.view_map(), b_list@),
            r@.len() == wi,
            forall|w2: int| 0 <= w2 < wi ==> #[trigger] r@[w2] == accepting(*scn, b_list@.to_set(), w_list@[w2]),
        decreases w_list@.len() - wi,
    {
        let w = w_list[wi];
        let in_trap = b_index.get(&w).is_some();
        proof {
            if in_trap {
                assert(b_list@[b_index.view_map()[w] as int] == w);
                assert(b_list@.to_set().contains(w));
            } else if b_list@.to_set().contains(w) {
                let i = choose|i: int| 0 <= i < b_list@.len() && b_list@[i] == w;
                assert(b_index.view_map().contains_key(b_list@[i]));
            }
        }
        r.push(scn.white_can_pass && scn.laws.allow_pass(&w) && in_trap);
        wi += 1;
    }
    r
}


/// Recorded edges are in range.
proof fn lemma_edges_in_range(succ: Seq<Vec<usize>>, n: int)
    requires
        forall|i: int, y: usize| 0 <= i < succ.len() && #[trigger] succ[i]@.contains(y) ==> y < n,
    ensures
        succ_in_range(succ, n),
{
    assert forall|i: int, k: int| 0 <= i < succ.len() && 0 <= k < succ[i]@.len() implies #[trigger] succ[i]@[k] < n by {
        assert(succ[i]@.contains(succ[i]@[k]));
    }
}

/// Builds the game graph on the black nodes `btm_trap` and shrinks the region until White can
/// force a visit to an accepting node from every node of it.
fn compute_winning_region<D: DomainLike, L: LawsLike, P>(
    scn: &Scenario<D, L, P>,
    btm_trap: &StateSet,
) -> (r: Result<BuchiGraph, SearchError>)
    ensures
        r is Ok ==> scn.rules_ok(),
        r is Ok ==> r->Ok_0.graph_ok(*scn, btm_trap.view_set()),
        r is Ok ==> r->Ok_0.region_ok(),
        r is Ok ==> forall|rw: Seq<bool>, rb: Seq<bool>| #[trigger] graph_winning(r->Ok_0.wb_succ@, r->Ok_0.bw_succ@, r->Ok_0.is_accept_w@, rw, rb)
            ==> bools_sub(rw, r->Ok_0.in_z_w@) && bools_sub(rb, r->Ok_0.in_z_b@),
        !buchi_inputs_ok(*scn, btm_trap.view_set()) ==> r is Err && r->Err_0 is InvalidScenario,
        buchi_inputs_ok(*scn, btm_trap.view_set()) && btm_trap.view_set().len() > scn.limits.max_states
            ==> r matches Err(SearchError::LimitExceeded { .. }),
        r is Err ==> over_budget_or_alloc(scn.limits, r->Err_0)
            || (r->Err_0 is InvalidScenario && !buchi_inputs_ok(*scn, btm_trap.view_set())),
{
    let b_list = check_inputs(scn, btm_trap)?;
    proof {
        b_list@.unique_seq_to_set();
    }
    let mut tracker = ResourceTracker::new(scn.limits);
    tracker.bump_states("buchi_black_nodes", b_list.len())?;
    let b_len = b_list.len();
    let b_index = index_states(&b_list, &tracker, "buchi_black_index", "b_index")?;
    let (w_list, bw_succ, w_index) = black_edges(scn, &b_list, &mut tracker)?;
    let w_len = w_list.len();
    let wb_succ = white_edges(scn, &b_list, &b_index, &w_list, &mut tracker)?;
    let is_accept_w = accepting_flags(scn, &b_list, &b_index, &w_list);
    proof {
        assert forall|i: int, y: usize| 0 <= i < bw_succ@.len() && #[trigger] bw_succ@[i]@.contains(y) implies y < w_len by {
            assert(black_edges_ok(*scn, b_list@[i], bw_succ@[i]@, w_list@, w_index.view_map()));
        }
        assert forall|i: int, y: usize| 0 <= i < wb_succ@.len() && #[trigger] wb_succ@[i]@.contains(y) implies y < b_len by {
            assert(white_edges_ok(*scn, w_list@[i], wb_succ@[i]@, b_list@, b_index.view_map()));
        }
        lemma_edges_in_range(bw_succ@, w_len as int);
        lemma_edges_in_range(wb_succ@, b_len as int);
    }
    let mut in_z_b = filled(b_len, true);
    let mut in_z_w = filled(w_len, true);
    let none_b = filled(b_len, false);
    proof {
        assert(none_b@ =~= no_seeds(b_len as nat));
        lemma_count_false_bound(in_z_b@);
        lemma_count_false_bound(in_z_w@);
    }
    loop
        invariant
            tracker.limits_spec() == scn.limits,
            buchi_inputs_ok(*scn, btm_trap.view_set()),
            b_len == b_list@.len(),
            w_len == w_list@.len(),
            bw_succ@.len() == b_len,
            wb_succ@.len() == w_len,
            is_accept_w@.len() == w_len,
            none_b@ == no_seeds(b_len as nat),
            succ_in_range(bw_succ@, w_len as int),
            succ_in_range(wb_succ@, b_len as int),
            in_z_b@.len() == b_len,
            in_z_w@.len() == w_len,
            black_closed(in_z_b@, in_z_w@, bw_succ@),
            forall|rw: Seq<bool>, rb: Seq<bool>| #[trigger] graph_winning(wb_succ@, bw_succ@, is_accept_w@, rw, rb)
                ==> bools_sub(rw, in_z_w@) && bools_sub(rb, in_z_b@),
        ensures
            exists|y_w: Seq<bool>, y_b: Seq<bool>| {
                &&& #[trigger] is_attractor(in_z_w@, in_z_b@, wb_succ@, bw_succ@, is_accept_w@, no_seeds(in_z_b@.len()), y_w, y_b)
                &&& forall|i: int| 0 <= i < in_z_b@.len() && in_z_b@[i] ==> y_b[i]
                &&& forall|i: int| 0 <= i < in_z_w@.len() && in_z_w@[i] ==> y_w[i]
            },
        decreases (b_len - count_false(in_z_b@)) + (w_len - count_false(in_z_w@)),
    {
        proof {
            lemma_count_false_bound(in_z_b@);
            lemma_count_false_bound(in_z_w@);
        }
        tracker.bump_steps("buchi_iter", 1)?;
        let (y_w, y_b, _) = attractor_core(&in_z_w, &in_z_b, &wb_succ, &bw_succ, &is_accept_w, &none_b);
        let mut target_b: Vec<bool> = Vec::new();
        let mut i: usize = 0;
        while i < b_len
            invariant
                i <= b_len,
                b_len == in_z_b@.len(),
                b_len == y_b@.len(),
                target_b@.len() == i,
                forall|j: int| 0 <= j < i ==> #[trigger] target_b@[j] == (in_z_b@[j] && !y_b@[j]),
            decreases b_len - i,
        {
            target_b.push(in_z_b[i] && !y_b[i]);
            i += 1;
        }
        let mut target_w: Vec<bool> = Vec::new();
        let mut i: usize = 0;
        while i < w_len
            invariant
                i <= w_len,
                w_len == in_z_w@.len(),
                w_len == y_w@.len(),
                target_w@.len() == i,
                forall|j: int| 0 <= j < i ==> #[trigger] target_w@[j] == (in_z_w@[j] && !y_w@[j]),
            decreases w_len - i,
        {
            target_w.push(in_z_w[i] && !y_w[i]);
            i += 1;
        }
        let (x_b, x_w, _) = attractor_core(&in_z_b, &in_z_w, &bw_succ, &wb_succ, &target_b, &target_w);
        let ghost zb0 = in_z_b@;
        let ghost zw0 = in_z_w@;
        let mut any_removed = false;
        let mut i: usize = 0;
        while i < b_len
            invariant
                i <= b_len,
                b_len == in_z_b@.len(),
                b_len == zb0.len(),
                b_len == x_b@.len(),
                forall|j: int| 0 <= j < i ==> #[trigger] in_z_b@[j] == (zb0[j] && !x_b@[j]),
                forall|j: int| i <= j < b_len ==> #[trigger] in_z_b@[j] == zb0[j],
                !any_removed ==> forall|j: int| 0 <= j < i ==> !(zb0[j] && #[trigger] x_b@[j]),
                any_removed ==> count_false(in_z_b@) > count_false(zb0),
                count_false(in_z_b@) >= count_false(zb0),
            decreases b_len - i,
        {
            if in_z_b[i] && x_b[i] {
                proof {
                    lemma_count_false_clear(in_z_b@, i as int);
                }
                in_z_b.set(i, false);
                any_removed = true;
            }
            i += 1;
        }
        let ghost removed_b = any_removed;
        let mut i: usize = 0;
        while i < w_len
            invariant
                i <= w_len,
                w_len == in_z_w@.len(),
                w_len == zw0.len(),
                w_len == x_w@.len(),
                forall|j: int| 0 <= j < i ==> #[trigger] in_z_w@[j] == (zw0[j] && !x_w@[j]),
                forall|j: int| i <= j < w_len ==> #[trigger] in_z_w@[j] == zw0[j],
                removed_b ==> any_removed,
                !any_removed ==> forall|j: int| 0 <= j < i ==> !(zw0[j] && #[trigger] x_w@[j]),
                (any_removed && !removed_b) ==> count_false(in_z_w@) > count_false(zw0),
                count_false(in_z_w@) >= count_false(zw0),
            decreases w_len - i,
        {
            if in_z_w[i] && x_w[i] {
                proof {
                    lemma_count_false_clear(in_z_w@, i as int);
                }
                in_z_w.set(i, false);
                any_removed = true;
            }
            i += 1;
        }
        proof {
            lemma_count_false_bound(in_z_b@);
            lemma_count_false_bound(in_z_w@);
            assert forall|rw: Seq<bool>, rb: Seq<bool>| #[trigger] graph_winning(wb_succ@, bw_succ@, is_accept_w@, rw, rb)
                implies bools_sub(rw, in_z_w@) && bools_sub(rb, in_z_b@) by {
                lemma_winning_in_attractor(wb_succ@, bw_succ@, is_accept_w@, zw0, zb0, y_w@, y_b@, rw, rb);
                lemma_winning_outside_black(wb_succ@, bw_succ@, is_accept_w@, zw0, zb0, y_w@, y_b@, target_b@, target_w@,
                    x_b@, x_w@, rw, rb);
                assert forall|i: int| 0 <= i < rw.len() && rw[i] implies #[trigger] in_z_w@[i] by {
                    assert(!x_w@[i]);
                }
                assert forall|i: int| 0 <= i < rb.len() && rb[i] implies #[trigger] in_z_b@[i] by {
                    assert(!x_b@[i]);
                }
            }
            // Black cannot leave the shrunk region.
            assert forall|bi: int, k: int| 0 <= bi < in_z_b@.len() && in_z_b@[bi] && 0 <= k < bw_succ@[bi]@.len()
                implies in_z_w@[#[trigger] bw_succ@[bi]@[k] as int] by {
                let w = bw_succ@[bi]@[k];
                assert(zb0[bi] && !x_b@[bi]);
                assert(zw0[w as int]);
                if x_w@[w as int] {
                    assert(some_succ_in(bw_succ@[bi]@, zw0, x_w@));
                }
            }
        }
        if !any_removed {
            proof {
                assert forall|i: int| 0 <= i < in_z_b@.len() && in_z_b@[i] implies y_b@[i] by {
                    assert(!x_b@[i]);
                    if !y_b@[i] {
                        assert(target_b@[i]);
                    }
                }
                assert forall|i: int| 0 <= i < in_z_w@.len() && in_z_w@[i] implies y_w@[i] by {
                    assert(!x_w@[i]);
                    if !y_w@[i] {
                        assert(target_w@[i]);
                    }
                }
                assert(in_z_b@ =~= zb0);
                assert(in_z_w@ =~= zw0);
                assert(is_attractor(in_z_w@, in_z_b@, wb_succ@, bw_succ@, is_accept_w@, no_seeds(in_z_b@.len()), y_w@, y_b@));
            }
            break;
        }
    }
    let g = BuchiGraph {
        b_list,
        b_index,
        w_list,
        w_index,
        bw_succ,
        wb_succ,
        is_accept_w,
        in_z_b,
        in_z_w,
    };
    proof {
        let (yw, yb) = choose|y_w: Seq<bool>, y_b: Seq<bool>| {
            &&& #[trigger] is_attractor(g.in_z_w@, g.in_z_b@, g.wb_succ@, g.bw_succ@, g.is_accept_w@, no_seeds(g.in_z_b@.len()), y_w, y_b)
            &&& forall|i: int| 0 <= i < g.in_z_b@.len() && g.in_z_b@[i] ==> y_b[i]
            &&& forall|i: int| 0 <= i < g.in_z_w@.len() && g.in_z_w@[i] ==> y_w[i]
        };
        assert(is_attractor(g.in_z_w@, g.in_z_b@, g.wb_succ@, g.bw_succ@, g.is_accept_w@, no_seeds(g.in_z_b@.len()), yw, yb));
        assert(g.region_ok());
    }
    Ok(g)
}


/// Every existential node of an attractor is a seed or has a successor inside it.
pub proof fn lemma_attractor_justified(
    z_e: Seq<bool>,
    z_u: Seq<bool>,
    e_succ: Seq<Vec<usize>>,
    u_succ: Seq<Vec<usize>>,
    seed_e: Seq<bool>,
    seed_u: Seq<bool>,
    a_e: Seq<bool>,
    a_u: Seq<bool>,
    i: int,
)
    requires
        is_attractor(z_e, z_u, e_succ, u_succ, seed_e, seed_u, a_e, a_u),
        succ_in_range(u_succ, z_e.len() as int),
        u_succ.len() == z_u.len(),
        0 <= i < a_e.len(),
        a_e[i],
    ensures
        seed_e[i] || some_succ_in(e_succ[i]@, z_u, a_u),
{
    if !(seed_e[i] || some_succ_in(e_succ[i]@, z_u, a_u)) {
        let s_e = a_e.update(i, false);
        assert forall|i2: int| 0 <= i2 < z_e.len() && z_e[i2] && (seed_e[i2] || some_succ_in(e_succ[i2]@, z_u, a_u))
            implies #[trigger] s_e[i2] by {
            assert(a_e[i2]);
        }
        assert forall|j: int| 0 <= j < z_u.len() && z_u[j] && (seed_u[j] || all_succ_in(u_succ[j]@, z_e, s_e))
            implies #[trigger] a_u[j] by {
            if !seed_u[j] {
                let l = u_succ[j]@;
                assert(all_succ_in(l, z_e, s_e));
                assert forall|k: int| 0 <= k < l.len() && z_e[#[trigger] l[k] as int] implies a_e[l[k] as int] by {
                    assert(s_e[l[k] as int]);
                    assert(l[k] < z_e.len());
                }
                assert(all_succ_in(u_succ[j]@, z_e, a_e));
            }
        }
        assert(attr_closed(z_e, z_u, e_succ, u_succ, seed_e, seed_u, s_e, a_u));
        assert(s_e[i]);
    }
}

/// The black nodes of the region, as a set of states.
pub open spec fn region_set(bl: Seq<State>, z_b: Seq<bool>) -> Set<State> {
    Set::new(|s: State| exists|i: int| 0 <= i < bl.len() && z_b[i] && #[trigger] bl[i] == s)
}

/// The black nodes in the region.
fn extract_b_set(g: &BuchiGraph) -> (out: StateSet)
    requires
        g.in_z_b@.len() == g.b_list@.len(),
    ensures
        out.view_set() == region_set(g.b_list@, g.in_z_b@),
{
    let mut out = StateSet::new();
    let mut i: usize = 0;
    while i < g.b_list.len()
        invariant
            i <= g.b_list@.len(),
            g.in_z_b@.len() == g.b_list@.len(),
            out.view_set() == region_set(g.b_list@.take(i as int), g.in_z_b@),
        decreases g.b_list@.len() - i,
    {
        let ghost before = out.view_set();
        if g.in_z_b[i] {
            out.insert(g.b_list[i]);
        }
        proof {
            let t0 = g.b_list@.take(i as int);
            let t1 = g.b_list@.take(i as int + 1);
            assert forall|s: State| out.view_set().contains(s) <==> region_set(t1, g.in_z_b@).contains(s) by {
                if region_set(t0, g.in_z_b@).contains(s) {
                    let a = choose|a: int| 0 <= a < t0.len() && g.in_z_b@[a] && #[trigger] t0[a] == s;
                    assert(t1[a] == s);
                }
                if region_set(t1, g.in_z_b@).contains(s) {
                    let a = choose|a: int| 0 <= a < t1.len() && g.in_z_b@[a] && #[trigger] t1[a] == s;
                    if a < i {
                        assert(t0[a] == s);
                    }
                }
                if g.in_z_b@[i as int] && s == g.b_list@[i as int] {
                    assert(t1[i as int] == s);
                }
            }
            assert(out.view_set() =~= region_set(t1, g.in_z_b@));
        }
        i += 1;
    }
    proof {
        assert(g.b_list@.take(g.b_list@.len() as int) =~= g.b_list@);
    }
    out
}

/// White node `wi` is in the region but has no successor in it.
spec fn white_stuck(g: BuchiGraph, wi: int) -> bool {
    &&& g.in_z_w@[wi]
    &&& forall|k: int| 0 <= k < g.wb_succ@[wi]@.len() ==> !(#[trigger] g.wb_succ@[wi]@[k] < g.b_list@.len()
        && g.in_z_b@[g.wb_succ@[wi]@[k] as int])
}

/// A memoryless White strategy inside the region: for each white node of the region, a black
/// node of the region that White moves to. An accepting node passes when the passed state is
/// in the region; a node attracted to an accepting node moves along its witness; otherwise the
/// first successor in the region is taken. Fails when a white node of the region has no
/// successor in it.
fn extract_tempo_strategy<D, L: LawsLike, P>(g: &BuchiGraph, Ghost(scn): Ghost<Scenario<D, L, P>>, Ghost(btm): Ghost<Set<State>>) -> (r: Result<StateMoves, SearchError>)
    requires
        g.graph_ok(scn, btm),
    ensures
        r is Ok ==> forall|wi: int| 0 <= wi < g.w_list@.len() && #[trigger] g.in_z_w@[wi] ==> {
            let m = r->Ok_0.view_map();
            let w = g.w_list@[wi];
            &&& m.contains_key(w)
            &&& region_set(g.b_list@, g.in_z_b@).contains(m[w])
            &&& scn.legal_white_spec(scn.laws, w).contains(m[w])
        },
        r is Ok ==> forall|s: State| #[trigger] r->Ok_0.view_map().contains_key(s) ==> black_move_from(scn, btm, s)
            && region_set(g.b_list@, g.in_z_b@).contains(r->Ok_0.view_map()[s]),
        r is Ok ==> forall|wi: int| 0 <= wi < g.w_list@.len() && #[trigger] g.in_z_w@[wi] && g.is_accept_w@[wi]
            && region_set(g.b_list@, g.in_z_b@).contains(g.w_list@[wi])
            ==> r->Ok_0.view_map()[g.w_list@[wi]] == g.w_list@[wi],
        r is Err <==> exists|wi: int| 0 <= wi < g.w_list@.len() && #[trigger] white_stuck(*g, wi),
        r is Err ==> r->Err_0 is InvalidScenario,
{
    let b_len = g.b_list.len();
    let w_len = g.w_list.len();
    proof {
        assert forall|i: int, y: usize| 0 <= i < g.bw_succ@.len() && #[trigger] g.bw_succ@[i]@.contains(y) implies y < w_len by {
            assert(black_edges_ok(scn, g.b_list@[i], g.bw_succ@[i]@, g.w_list@, g.w_index.view_map()));
        }
        assert forall|i: int, y: usize| 0 <= i < g.wb_succ@.len() && #[trigger] g.wb_succ@[i]@.contains(y) implies y < b_len by {
            assert(white_edges_ok(scn, g.w_list@[i], g.wb_succ@[i]@, g.b_list@, g.b_index.view_map()));
        }
        lemma_edges_in_range(g.bw_succ@, w_len as int);
        lemma_edges_in_range(g.wb_succ@, b_len as int);
    }
    let none_b = filled(b_len, false);
    let (in_a_w, _in_a_b, witness_w) = attractor_core(&g.in_z_w, &g.in_z_b, &g.wb_succ, &g.bw_succ, &g.is_accept_w, &none_b);
    let mut out = StateMoves::new();
    let mut wi: usize = 0;
    while wi < w_len
        invariant
            wi <= w_len,
            w_len == g.w_list@.len(),
            b_len == g.b_list@.len(),
            g.graph_ok(scn, btm),
            witness_w@.len() == w_len,
            in_a_w@.len() == w_len,
            forall|i: int| 0 <= i < witness_w@.len() && (#[trigger] witness_w@[i]) is Some ==> {
                let w = witness_w@[i]->Some_0;
                &&& exists|k: int| 0 <= k < g.wb_succ@[i]@.len() && g.wb_succ@[i]@[k] == w
                &&& w < b_len
            },
            forall|w2: int| 0 <= w2 < wi && #[trigger] g.in_z_w@[w2] ==> {
                let m = out.view_map();
                let w = g.w_list@[w2];
                &&& m.contains_key(w)
                &&& region_set(g.b_list@, g.in_z_b@).contains(m[w])
                &&& scn.legal_white_spec(scn.laws, w).contains(m[w])
            },
            forall|s: State| #[trigger] out.view_map().contains_key(s) ==> exists|w2: int| 0 <= w2 < wi && g.w_list@[w2] == s && g.in_z_w@[w2],
            forall|w2: int| 0 <= w2 < wi ==> !#[trigger] white_stuck(*g, w2),
            forall|w2: int| 0 <= w2 < wi && #[trigger] g.in_z_w@[w2] && g.is_accept_w@[w2]
                && region_set(g.b_list@, g.in_z_b@).contains(g.w_list@[w2])
                ==> out.view_map()[g.w_list@[w2]] == g.w_list@[w2],
        decreases w_len - wi,
    {
        if g.in_z_w[wi] {
            let w = g.w_list[wi];
            let succ = &g.wb_succ[wi];
            proof {
                assert(white_edges_ok(scn, w, succ@, g.b_list@, g.b_index.view_map()));
            }
            let mut succ_in_z: Vec<usize> = Vec::new();
            let mut k: usize = 0;
            while k < succ.len()
                invariant
                    k <= succ@.len(),
                    b_len == g.b_list@.len(),
                    g.in_z_b@.len() == b_len,
                    forall|a: int| 0 <= a < succ_in_z@.len() ==> #[trigger] succ_in_z@[a] < b_len
                        && g.in_z_b@[succ_in_z@[a] as int] && succ@.contains(succ_in_z@[a]),
                    succ_in_z@.len() == 0 ==> forall|k2: int| 0 <= k2 < k ==> !(#[trigger] succ@[k2] < b_len
                        && g.in_z_b@[succ@[k2] as int]),
                decreases succ@.len() - k,
            {
                let bi = succ[k];
                if bi < b_len && g.in_z_b[bi] {
                    succ_in_z.push(bi);
                    proof {
                        assert(succ@.contains(succ@[k as int]));
                    }
                }
                k += 1;
            }
            if succ_in_z.len() == 0 {
                proof {
                    assert(white_stuck(*g, wi as int));
                }
                return Err(invalid("tempo strategy extraction found a terminal white node inside winning subgame"));
            }
            proof {
                let k0 = choose|k0: int| 0 <= k0 < succ@.len() && succ@[k0] == succ_in_z@[0];
                assert(succ@[k0] < b_len && g.in_z_b@[succ@[k0] as int]);
                assert(!white_stuck(*g, wi as int));
            }
            let first = succ_in_z[0];
            let chosen = if g.is_accept_w[wi] {
                match g.b_index.get(&w) {
                    Some(pass_bi) => {
                        if pass_bi < b_len && g.in_z_b[pass_bi] {
                            pass_bi
                        } else {
                            first
                        }
                    },
                    None => first,
                }
            } else if in_a_w[wi] {
                match witness_w[wi] {
                    Some(bi) => {
                        if bi < b_len && g.in_z_b[bi] {
                            bi
                        } else {
                            first
                        }
                    },
                    None => first,
                }
            } else {
                first
            };
            proof {
                if g.is_accept_w@[wi as int] && region_set(g.b_list@, g.in_z_b@).contains(w) {
                    let a = choose|a: int| 0 <= a < g.b_list@.len() && g.in_z_b@[a] && #[trigger] g.b_list@[a] == w;
                    assert(g.b_index.view_map().contains_key(g.b_list@[a]));
                    assert(g.b_list@[chosen as int] == w);
                }
                let lw = scn.legal_white_spec(scn.laws, w);
                assert(g.in_z_b@[chosen as int]);
                assert(region_set(g.b_list@, g.in_z_b@).contains(g.b_list@[chosen as int]));
                if succ@.contains(chosen) {
                    assert(lw.contains(g.b_list@[chosen as int]));
                } else if g.is_accept_w@[wi as int] && g.b_index.view_map().contains_key(w) && chosen == g.b_index.view_map()[w] {
                    assert(g.b_list@[chosen as int] == w);
                    assert(accepting(scn, btm, w));
                    assert(lw[0] == w);
                } else {
                    let bi = witness_w@[wi as int]->Some_0;
                    let k2 = choose|k2: int| 0 <= k2 < g.wb_succ@[wi as int]@.len() && g.wb_succ@[wi as int]@[k2] == bi;
                    assert(succ@.contains(bi));
                }
                assert(lw.contains(g.b_list@[chosen as int]));
            }
            let ghost before = out.view_map();
            out.insert(w, g.b_list[chosen]);
            proof {
                assert forall|w2: int| 0 <= w2 < wi + 1 && #[trigger] g.in_z_w@[w2] implies {
                    let m = out.view_map();
                    let ww = g.w_list@[w2];
                    &&& m.contains_key(ww)
                    &&& region_set(g.b_list@, g.in_z_b@).contains(m[ww])
                    &&& scn.legal_white_spec(scn.laws, ww).contains(m[ww])
                } by {
                    if w2 < wi {
                        assert(g.w_index.view_map().contains_key(g.w_list@[w2]));
                        assert(g.w_index.view_map().contains_key(g.w_list@[wi as int]));
                        assert(g.w_index.view_map()[g.w_list@[w2]] == w2);
                        assert(g.w_index.view_map()[g.w_list@[wi as int]] == wi);
                        assert(g.w_list@[w2] != w);
                    }
                }
                assert forall|s: State| #[trigger] out.view_map().contains_key(s) implies exists|w2: int| 0 <= w2 < wi + 1 && g.w_list@[w2] == s && g.in_z_w@[w2] by {
                    if s != w {
                        assert(before.contains_key(s));
                    }
                }
                assert forall|w2: int| 0 <= w2 < wi + 1 && #[trigger] g.in_z_w@[w2] && g.is_accept_w@[w2]
                    && region_set(g.b_list@, g.in_z_b@).contains(g.w_list@[w2])
                    implies out.view_map()[g.w_list@[w2]] == g.w_list@[w2] by {
                    if w2 < wi {
                        assert(g.w_index.view_map().contains_key(g.w_list@[w2]));
                        assert(g.w_index.view_map().contains_key(g.w_list@[wi as int]));
                        assert(g.w_index.view_map()[g.w_list@[w2]] == w2);
                        assert(g.w_index.view_map()[g.w_list@[wi as int]] == wi);
                        assert(g.w_list@[w2] != w);
                    }
                }
            }
        }
        wi += 1;
    }
    Ok(out)
}


/// After any black move from a state of `t`, White can pass (the white node is accepting) or
/// reply into `t`.
pub open spec fn tempo_step_ok<D, L: LawsLike, P>(scn: Scenario<D, L, P>, btm: Set<State>, t: Set<State>) -> bool {
    forall|b: State, i: int|
        #![trigger t.contains(b), scn.legal_black_spec(scn.laws, b)[i]]
        t.contains(b) && 0 <= i < scn.legal_black_spec(scn.laws, b).len() ==> {
            let w = scn.legal_black_spec(scn.laws, b)[i];
            accepting(scn, btm, w) || exists|j: int|
                0 <= j < scn.legal_white_spec(scn.laws, w).len() && t.contains(#[trigger] scn.legal_white_spec(scn.laws, w)[j])
        }
}

/// White has a reply from `w` into `t` that is also in `s`.
pub open spec fn reply_in<D, L: LawsLike, P>(scn: Scenario<D, L, P>, w: State, t: Set<State>, s: Set<State>) -> bool {
    exists|j: int| 0 <= j < scn.legal_white_spec(scn.laws, w).len()
        && t.contains(#[trigger] scn.legal_white_spec(scn.laws, w)[j]) && s.contains(scn.legal_white_spec(scn.laws, w)[j])
}

/// `w` is reached by a black move from a state of `t`.
pub open spec fn black_move_from<D, L: LawsLike, P>(scn: Scenario<D, L, P>, t: Set<State>, w: State) -> bool {
    exists|b: State, i: int| t.contains(b) && 0 <= i < scn.legal_black_spec(scn.laws, b).len()
        && #[trigger] scn.legal_black_spec(scn.laws, b)[i] == w
}

/// `s` holds every state of `t` from which Black has a move and every black move leads to an
/// accepting white-to-move state or to one with a reply into `t ∩ s`: `s` is closed under
/// White forcing a visit to an accepting state inside `t`.
pub open spec fn tempo_attr_closed<D, L: LawsLike, P>(scn: Scenario<D, L, P>, btm: Set<State>, t: Set<State>, s: Set<State>) -> bool {
    forall|b: State| #[trigger] t.contains(b) && scn.legal_black_spec(scn.laws, b).len() > 0
        && (forall|i: int| 0 <= i < scn.legal_black_spec(scn.laws, b).len()
            ==> accepting(scn, btm, #[trigger] scn.legal_black_spec(scn.laws, b)[i])
                || reply_in(scn, scn.legal_black_spec(scn.laws, b)[i], t, s))
        ==> s.contains(b)
}

/// White wins the tempo game on `t ⊆ btm`: after every black move from `t` White has a reply
/// into `t`, and from every state of `t` White can force, staying in `t`, a visit to an
/// accepting white-to-move state (`t` lies in every set closed under that forcing).
pub open spec fn tempo_winning<D, L: LawsLike, P>(scn: Scenario<D, L, P>, btm: Set<State>, t: Set<State>) -> bool {
    &&& t.subset_of(btm)
    &&& forall|b: State, i: int| #![trigger t.contains(b), scn.legal_black_spec(scn.laws, b)[i]]
        t.contains(b) && 0 <= i < scn.legal_black_spec(scn.laws, b).len()
            ==> reply_in(scn, scn.legal_black_spec(scn.laws, b)[i], t, t)
    &&& forall|s: Set<State>| #[trigger] tempo_attr_closed(scn, btm, t, s) ==> t.subset_of(s)
}

/// The black nodes of the graph in `t`.
spec fn pair_b(g: BuchiGraph, t: Set<State>) -> Seq<bool> {
    Seq::new(g.b_list@.len(), |i: int| t.contains(g.b_list@[i]))
}

/// The white nodes of the graph reached by a black move from `t`.
spec fn pair_w<D, L: LawsLike, P>(scn: Scenario<D, L, P>, g: BuchiGraph, t: Set<State>) -> Seq<bool> {
    Seq::new(g.w_list@.len(), |i: int| black_move_from(scn, t, g.w_list@[i]))
}

/// A state of `btm` has a black node.
proof fn lemma_black_node<D, L: LawsLike, P>(g: BuchiGraph, scn: Scenario<D, L, P>, btm: Set<State>, b: State) -> (a: int)
    requires
        g.graph_ok(scn, btm),
        btm.contains(b),
    ensures
        0 <= a < g.b_list@.len(),
        g.b_list@[a] == b,
        g.b_index.view_map().contains_key(b),
        g.b_index.view_map()[b] == a,
{
    assert(g.b_list@.to_set().contains(b));
    let a = choose|a: int| 0 <= a < g.b_list@.len() && g.b_list@[a] == b;
    assert(g.b_index.view_map().contains_key(g.b_list@[a]));
    a
}

/// A white node that is a black move from a black node sits in that node's successors.
proof fn lemma_white_succ<D, L: LawsLike, P>(g: BuchiGraph, scn: Scenario<D, L, P>, btm: Set<State>, a: int, i: int) -> (k: int)
    requires
        g.graph_ok(scn, btm),
        0 <= a < g.b_list@.len(),
        0 <= i < scn.legal_black_spec(scn.laws, g.b_list@[a]).len(),
    ensures
        0 <= k < g.bw_succ@[a]@.len(),
        g.bw_succ@[a]@[k] < g.w_list@.len(),
        g.w_list@[g.bw_succ@[a]@[k] as int] == scn.legal_black_spec(scn.laws, g.b_list@[a])[i],
{
    let b = g.b_list@[a];
    let w = scn.legal_black_spec(scn.laws, b)[i];
    assert(black_edges_ok(scn, b, g.bw_succ@[a]@, g.w_list@, g.w_index.view_map()));
    let y = g.w_index.view_map()[w];
    assert(g.bw_succ@[a]@.contains(y));
    let k = choose|k: int| 0 <= k < g.bw_succ@[a]@.len() && g.bw_succ@[a]@[k] == y;
    k
}

/// A reply of a white node into `btm` sits in that node's successors.
proof fn lemma_black_succ<D, L: LawsLike, P>(g: BuchiGraph, scn: Scenario<D, L, P>, btm: Set<State>, wi: int, j: int) -> (k: int)
    requires
        g.graph_ok(scn, btm),
        0 <= wi < g.w_list@.len(),
        0 <= j < scn.legal_white_spec(scn.laws, g.w_list@[wi]).len(),
        btm.contains(scn.legal_white_spec(scn.laws, g.w_list@[wi])[j]),
    ensures
        0 <= k < g.wb_succ@[wi]@.len(),
        g.wb_succ@[wi]@[k] < g.b_list@.len(),
        g.b_list@[g.wb_succ@[wi]@[k] as int] == scn.legal_white_spec(scn.laws, g.w_list@[wi])[j],
{
    let w = g.w_list@[wi];
    let r = scn.legal_white_spec(scn.laws, w)[j];
    let c = lemma_black_node(g, scn, btm, r);
    assert(white_edges_ok(scn, w, g.wb_succ@[wi]@, g.b_list@, g.b_index.view_map()));
    assert(g.wb_succ@[wi]@.contains(c as usize));
    let k = choose|k: int| 0 <= k < g.wb_succ@[wi]@.len() && g.wb_succ@[wi]@[k] == c as usize;
    k
}

/// A set on which White wins the tempo game gives a winning pair of the graph.
proof fn lemma_winning_pair<D, L: LawsLike, P>(g: BuchiGraph, scn: Scenario<D, L, P>, btm: Set<State>, t: Set<State>)
    requires
        g.graph_ok(scn, btm),
        tempo_winning(scn, btm, t),
    ensures
        graph_winning(g.wb_succ@, g.bw_succ@, g.is_accept_w@, pair_w(scn, g, t), pair_b(g, t)),
{
    let bl = g.b_list@;
    let wl = g.w_list@;
    let rb = pair_b(g, t);
    let rw = pair_w(scn, g, t);
    let wb = g.wb_succ@;
    let bw = g.bw_succ@;
    let acc = g.is_accept_w@;
    assert(black_closed(rb, rw, bw)) by {
        assert forall|bi: int, k: int| 0 <= bi < rb.len() && rb[bi] && 0 <= k < bw[bi]@.len()
            implies rw[#[trigger] bw[bi]@[k] as int] by {
            let b = bl[bi];
            assert(black_edges_ok(scn, b, bw[bi]@, wl, g.w_index.view_map()));
            let y = bw[bi]@[k];
            assert(bw[bi]@.contains(y));
            let i = choose|i: int| 0 <= i < scn.legal_black_spec(scn.laws, b).len() && scn.legal_black_spec(scn.laws, b)[i] == wl[y as int];
            assert(black_move_from(scn, t, wl[y as int]));
        }
    }
    assert forall|wi: int| 0 <= wi < rw.len() && #[trigger] rw[wi] implies some_succ_in(wb[wi]@, rb, rb) by {
        let w = wl[wi];
        let (b, i) = choose|b: State, i: int| t.contains(b) && 0 <= i < scn.legal_black_spec(scn.laws, b).len()
            && #[trigger] scn.legal_black_spec(scn.laws, b)[i] == w;
        assert(reply_in(scn, scn.legal_black_spec(scn.laws, b)[i], t, t));
        let j = choose|j: int| 0 <= j < scn.legal_white_spec(scn.laws, w).len()
            && t.contains(#[trigger] scn.legal_white_spec(scn.laws, w)[j]) && t.contains(scn.legal_white_spec(scn.laws, w)[j]);
        let k = lemma_black_succ(g, scn, btm, wi, j);
        assert(rb[wb[wi]@[k] as int]);
    }
    assert forall|sw: Seq<bool>, sb: Seq<bool>| sw.len() == rw.len() && sb.len() == rb.len()
        && #[trigger] attr_closed(rw, rb, wb, bw, acc, no_seeds(rb.len()), sw, sb)
        implies bools_sub(rw, sw) && bools_sub(rb, sb) by {
        lemma_winning_pair_covered(g, scn, btm, t, sw, sb);
    }
}

proof fn lemma_winning_pair_covered<D, L: LawsLike, P>(g: BuchiGraph, scn: Scenario<D, L, P>, btm: Set<State>, t: Set<State>, sw: Seq<bool>, sb: Seq<bool>)
    requires
        g.graph_ok(scn, btm),
        tempo_winning(scn, btm, t),
        sw.len() == g.w_list@.len(),
        sb.len() == g.b_list@.len(),
        attr_closed(pair_w(scn, g, t), pair_b(g, t), g.wb_succ@, g.bw_succ@, g.is_accept_w@, no_seeds(g.b_list@.len()), sw, sb),
    ensures
        bools_sub(pair_w(scn, g, t), sw),
        bools_sub(pair_b(g, t), sb),
{
    let bl = g.b_list@;
    let wl = g.w_list@;
    let rb = pair_b(g, t);
    let rw = pair_w(scn, g, t);
    let wb = g.wb_succ@;
    let bw = g.bw_succ@;
    let acc = g.is_accept_w@;
    let s = Set::new(|b: State| exists|a: int| 0 <= a < bl.len() && bl[a] == b && sb[a]);
    // A white node of the pair with a reply into `t ∩ s` is in `sw`.
    assert forall|wi: int, j: int| 0 <= wi < wl.len() && rw[wi] && 0 <= j < scn.legal_white_spec(scn.laws, wl[wi]).len()
        && t.contains(#[trigger] scn.legal_white_spec(scn.laws, wl[wi])[j]) && s.contains(scn.legal_white_spec(scn.laws, wl[wi])[j])
        implies sw[wi] by {
        let r = scn.legal_white_spec(scn.laws, wl[wi])[j];
        let k = lemma_black_succ(g, scn, btm, wi, j);
        let c = wb[wi]@[k] as int;
        let a = choose|a: int| 0 <= a < bl.len() && bl[a] == r && sb[a];
        assert(bl.no_duplicates());
        assert(a == c);
        assert(some_succ_in(wb[wi]@, rb, sb));
    }
    assert(tempo_attr_closed(scn, btm, t, s)) by {
        assert forall|b: State| #[trigger] t.contains(b) && scn.legal_black_spec(scn.laws, b).len() > 0
            && (forall|i: int| 0 <= i < scn.legal_black_spec(scn.laws, b).len()
                ==> accepting(scn, btm, #[trigger] scn.legal_black_spec(scn.laws, b)[i])
                    || reply_in(scn, scn.legal_black_spec(scn.laws, b)[i], t, s))
            implies s.contains(b) by {
            let a = lemma_black_node(g, scn, btm, b);
            assert(rb[a]);
            let k0 = lemma_white_succ(g, scn, btm, a, 0);
            assert(black_move_from(scn, t, wl[bw[a]@[k0] as int]));
            assert(rw[bw[a]@[k0] as int]);
            assert forall|k: int| 0 <= k < bw[a]@.len() && rw[#[trigger] bw[a]@[k] as int] implies sw[bw[a]@[k] as int] by {
                let y = bw[a]@[k] as int;
                assert(black_edges_ok(scn, b, bw[a]@, wl, g.w_index.view_map()));
                assert(bw[a]@.contains(bw[a]@[k]));
                let i = choose|i: int| 0 <= i < scn.legal_black_spec(scn.laws, b).len() && scn.legal_black_spec(scn.laws, b)[i] == wl[y];
                let w = scn.legal_black_spec(scn.laws, b)[i];
                if accepting(scn, btm, w) {
                    assert(acc[y]);
                } else {
                    assert(reply_in(scn, w, t, s));
                    let j = choose|j: int| 0 <= j < scn.legal_white_spec(scn.laws, w).len()
                        && t.contains(#[trigger] scn.legal_white_spec(scn.laws, w)[j]) && s.contains(scn.legal_white_spec(scn.laws, w)[j]);
                    assert(t.contains(scn.legal_white_spec(scn.laws, wl[y])[j]));
                }
            }
            assert(all_succ_in(bw[a]@, rw, sw));
            assert(sb[a]);
        }
    }
    assert(t.subset_of(s));
    assert forall|i: int| 0 <= i < rb.len() && rb[i] implies #[trigger] sb[i] by {
        assert(s.contains(bl[i]));
        let a = choose|a: int| 0 <= a < bl.len() && bl[a] == bl[i] && sb[a];
        assert(bl.no_duplicates());
    }
    assert forall|wi: int| 0 <= wi < rw.len() && rw[wi] implies #[trigger] sw[wi] by {
        let w = wl[wi];
        let (b, i) = choose|b: State, i: int| t.contains(b) && 0 <= i < scn.legal_black_spec(scn.laws, b).len()
            && #[trigger] scn.legal_black_spec(scn.laws, b)[i] == w;
        assert(reply_in(scn, scn.legal_black_spec(scn.laws, b)[i], t, t));
        let j = choose|j: int| 0 <= j < scn.legal_white_spec(scn.laws, w).len()
            && t.contains(#[trigger] scn.legal_white_spec(scn.laws, w)[j]) && t.contains(scn.legal_white_spec(scn.laws, w)[j]);
        assert(s.contains(scn.legal_white_spec(scn.laws, w)[j]));
    }
}

/// Every set on which White wins the tempo game lies in the region, when the region holds every
/// winning pair of the graph.
proof fn lemma_region_maximal<D, L: LawsLike, P>(g: BuchiGraph, scn: Scenario<D, L, P>, btm: Set<State>)
    requires
        g.graph_ok(scn, btm),
        forall|rw: Seq<bool>, rb: Seq<bool>| #[trigger] graph_winning(g.wb_succ@, g.bw_succ@, g.is_accept_w@, rw, rb)
            ==> bools_sub(rw, g.in_z_w@) && bools_sub(rb, g.in_z_b@),
    ensures
        forall|t: Set<State>| #[trigger] tempo_winning(scn, btm, t) ==> t.subset_of(region_set(g.b_list@, g.in_z_b@)),
{
    assert forall|t: Set<State>| #[trigger] tempo_winning(scn, btm, t) implies t.subset_of(region_set(g.b_list@, g.in_z_b@)) by {
        lemma_winning_pair(g, scn, btm, t);
        let rb = pair_b(g, t);
        assert(bools_sub(rb, g.in_z_b@));
        assert forall|s: State| t.contains(s) implies region_set(g.b_list@, g.in_z_b@).contains(s) by {
            let a = lemma_black_node(g, scn, btm, s);
            assert(rb[a]);
            assert(g.in_z_b@[a]);
        }
    }
}

/// When no white node of the region is stuck, White wins the tempo game on the region.
proof fn lemma_region_winning<D, L: LawsLike, P>(g: BuchiGraph, scn: Scenario<D, L, P>, btm: Set<State>)
    requires
        g.graph_ok(scn, btm),
        g.region_ok(),
        forall|wi: int| 0 <= wi < g.w_list@.len() ==> !#[trigger] white_stuck(g, wi),
    ensures
        tempo_winning(scn, btm, region_set(g.b_list@, g.in_z_b@)),
{
    let t = region_set(g.b_list@, g.in_z_b@);
    let bl = g.b_list@;
    let wl = g.w_list@;
    let wb = g.wb_succ@;
    let bw = g.bw_succ@;
    let zb = g.in_z_b@;
    let zw = g.in_z_w@;
    let acc = g.is_accept_w@;
    assert forall|i: int, y: usize| 0 <= i < bw.len() && #[trigger] bw[i]@.contains(y) implies y < wl.len() by {
        assert(black_edges_ok(scn, bl[i], bw[i]@, wl, g.w_index.view_map()));
    }
    assert forall|i: int, y: usize| 0 <= i < wb.len() && #[trigger] wb[i]@.contains(y) implies y < bl.len() by {
        assert(white_edges_ok(scn, wl[i], wb[i]@, bl, g.b_index.view_map()));
    }
    lemma_edges_in_range(bw, wl.len() as int);
    lemma_edges_in_range(wb, bl.len() as int);
    assert(t.subset_of(btm)) by {
        assert forall|s: State| t.contains(s) implies btm.contains(s) by {
            let i = choose|i: int| 0 <= i < bl.len() && zb[i] && #[trigger] bl[i] == s;
            assert(bl.to_set().contains(bl[i]));
        }
    }
    // A white node of the region has a reply into the region.
    assert forall|wi: int| 0 <= wi < wl.len() && zw[wi] implies #[trigger] reply_in(scn, wl[wi], t, t) by {
        assert(!white_stuck(g, wi));
        let k = choose|k: int| 0 <= k < wb[wi]@.len() && (#[trigger] wb[wi]@[k] < bl.len() && zb[wb[wi]@[k] as int]);
        let c = wb[wi]@[k];
        assert(white_edges_ok(scn, wl[wi], wb[wi]@, bl, g.b_index.view_map()));
        assert(wb[wi]@.contains(c));
        let lw = scn.legal_white_spec(scn.laws, wl[wi]);
        assert(lw.contains(bl[c as int]));
        let j = choose|j: int| 0 <= j < lw.len() && lw[j] == bl[c as int];
        assert(t.contains(bl[c as int]));
        assert(t.contains(lw[j]));
    }
    assert forall|b: State, i: int| #![trigger t.contains(b), scn.legal_black_spec(scn.laws, b)[i]]
        t.contains(b) && 0 <= i < scn.legal_black_spec(scn.laws, b).len()
        implies reply_in(scn, scn.legal_black_spec(scn.laws, b)[i], t, t) by {
        let wi = lemma_region_white_node(g, scn, btm, b, i);
        assert(reply_in(scn, wl[wi], t, t));
    }
    let (yw, yb) = choose|y_w: Seq<bool>, y_b: Seq<bool>| {
        &&& #[trigger] is_attractor(zw, zb, wb, bw, acc, no_seeds(zb.len()), y_w, y_b)
        &&& forall|i: int| 0 <= i < zb.len() && zb[i] ==> y_b[i]
        &&& forall|i: int| 0 <= i < zw.len() && zw[i] ==> y_w[i]
    };
    assert forall|s: Set<State>| #[trigger] tempo_attr_closed(scn, btm, t, s) implies t.subset_of(s) by {
        let sb = Seq::new(bl.len(), |a: int| zb[a] && s.contains(bl[a]));
        let sw = Seq::new(wl.len(), |a: int| zw[a] && (acc[a] || reply_in(scn, wl[a], t, s)));
        assert(attr_closed(zw, zb, wb, bw, acc, no_seeds(zb.len()), sw, sb)) by {
            assert forall|a: int| 0 <= a < zw.len() && zw[a] && (acc[a] || some_succ_in(wb[a]@, zb, sb)) implies #[trigger] sw[a] by {
                if !acc[a] {
                    let k = choose|k: int| 0 <= k < wb[a]@.len() && zb[#[trigger] wb[a]@[k] as int] && sb[wb[a]@[k] as int];
                    let c = wb[a]@[k];
                    assert(white_edges_ok(scn, wl[a], wb[a]@, bl, g.b_index.view_map()));
                    assert(wb[a]@.contains(c));
                    let lw = scn.legal_white_spec(scn.laws, wl[a]);
                    assert(lw.contains(bl[c as int]));
                    let j = choose|j: int| 0 <= j < lw.len() && lw[j] == bl[c as int];
                    assert(t.contains(bl[c as int]));
                    assert(t.contains(lw[j]) && s.contains(lw[j]));
                    assert(reply_in(scn, wl[a], t, s));
                }
            }
            assert forall|a: int| 0 <= a < zb.len() && zb[a] && (no_seeds(zb.len())[a] || all_succ_in(bw[a]@, zw, sw)) implies #[trigger] sb[a] by {
                let b = bl[a];
                assert(t.contains(b));
                let k0 = choose|k0: int| 0 <= k0 < bw[a]@.len() && zw[#[trigger] bw[a]@[k0] as int];
                assert(black_edges_ok(scn, b, bw[a]@, wl, g.w_index.view_map()));
                assert(bw[a]@.contains(bw[a]@[k0]));
                assert(scn.legal_black_spec(scn.laws, b).contains(wl[bw[a]@[k0] as int]));
                assert(scn.legal_black_spec(scn.laws, b).len() > 0);
                assert forall|i: int| 0 <= i < scn.legal_black_spec(scn.laws, b).len()
                    implies accepting(scn, btm, #[trigger] scn.legal_black_spec(scn.laws, b)[i])
                        || reply_in(scn, scn.legal_black_spec(scn.laws, b)[i], t, s) by {
                    let k = lemma_white_succ(g, scn, btm, a, i);
                    let y = bw[a]@[k] as int;
                    assert(black_closed(zb, zw, bw));
                    assert(zw[y]);
                    assert(sw[y]);
                }
                assert(s.contains(b));
            }
        }
        assert forall|x: State| t.contains(x) implies s.contains(x) by {
            let a = choose|a: int| 0 <= a < bl.len() && zb[a] && #[trigger] bl[a] == x;
            assert(yb[a]);
            assert(sb[a]);
        }
    }
}

/// After a black move from `t` to an accepting state that is itself in `t`, the strategy `m`
/// passes.
pub open spec fn strategy_passes<D, L: LawsLike, P>(scn: Scenario<D, L, P>, btm: Set<State>, t: Set<State>, m: Map<State, State>) -> bool {
    forall|b: State, i: int|
        #![trigger t.contains(b), scn.legal_black_spec(scn.laws, b)[i]]
        t.contains(b) && 0 <= i < scn.legal_black_spec(scn.laws, b).len()
            && accepting(scn, btm, scn.legal_black_spec(scn.laws, b)[i])
            && t.contains(scn.legal_black_spec(scn.laws, b)[i])
            ==> m[scn.legal_black_spec(scn.laws, b)[i]] == scn.legal_black_spec(scn.laws, b)[i]
}

/// After any black move from a state of `t`, the strategy `m` has a legal White reply, and that
/// reply is in `t`.
pub open spec fn strategy_keeps<D, L: LawsLike, P>(scn: Scenario<D, L, P>, t: Set<State>, m: Map<State, State>) -> bool {
    forall|b: State, i: int|
        #![trigger t.contains(b), scn.legal_black_spec(scn.laws, b)[i]]
        t.contains(b) && 0 <= i < scn.legal_black_spec(scn.laws, b).len() ==> {
            let w = scn.legal_black_spec(scn.laws, b)[i];
            &&& m.contains_key(w)
            &&& t.contains(m[w])
            &&& scn.legal_white_spec(scn.laws, w).contains(m[w])
        }
}

/// A black move from a black node of the region leads to a white node of the region.
proof fn lemma_region_white_node<D, L: LawsLike, P>(g: BuchiGraph, scn: Scenario<D, L, P>, btm: Set<State>, b: State, i: int) -> (wi: int)
    requires
        g.graph_ok(scn, btm),
        g.region_ok(),
        region_set(g.b_list@, g.in_z_b@).contains(b),
        0 <= i < scn.legal_black_spec(scn.laws, b).len(),
    ensures
        0 <= wi < g.w_list@.len(),
        g.in_z_w@[wi],
        g.w_list@[wi] == scn.legal_black_spec(scn.laws, b)[i],
{
    let bi = choose|bi: int| 0 <= bi < g.b_list@.len() && g.in_z_b@[bi] && #[trigger] g.b_list@[bi] == b;
    let w = scn.legal_black_spec(scn.laws, b)[i];
    assert(black_edges_ok(scn, g.b_list@[bi], g.bw_succ@[bi]@, g.w_list@, g.w_index.view_map()));
    let y = g.w_index.view_map()[w];
    assert(g.bw_succ@[bi]@.contains(y));
    let k = choose|k: int| 0 <= k < g.bw_succ@[bi]@.len() && g.bw_succ@[bi]@[k] == y;
    assert(g.in_z_w@[g.bw_succ@[bi]@[k] as int]);
    y as int
}

/// The tempo step property of the region.
proof fn lemma_region_tempo_step<D, L: LawsLike, P>(g: BuchiGraph, scn: Scenario<D, L, P>, btm: Set<State>)
    requires
        g.graph_ok(scn, btm),
        g.region_ok(),
    ensures
        tempo_step_ok(scn, btm, region_set(g.b_list@, g.in_z_b@)),
{
    let t = region_set(g.b_list@, g.in_z_b@);
    let (yw, yb) = choose|y_w: Seq<bool>, y_b: Seq<bool>| {
        &&& #[trigger] is_attractor(g.in_z_w@, g.in_z_b@, g.wb_succ@, g.bw_succ@,
            g.is_accept_w@, no_seeds(g.in_z_b@.len()), y_w, y_b)
        &&& forall|i: int| 0 <= i < g.in_z_b@.len() && g.in_z_b@[i] ==> y_b[i]
        &&& forall|i: int| 0 <= i < g.in_z_w@.len() && g.in_z_w@[i] ==> y_w[i]
    };
    assert forall|i: int, y: usize| 0 <= i < g.bw_succ@.len() && #[trigger] g.bw_succ@[i]@.contains(y) implies y < g.w_list@.len() by {
        assert(black_edges_ok(scn, g.b_list@[i], g.bw_succ@[i]@, g.w_list@, g.w_index.view_map()));
    }
    lemma_edges_in_range(g.bw_succ@, g.w_list@.len() as int);
    assert forall|b: State, i: int|
        #![trigger t.contains(b), scn.legal_black_spec(scn.laws, b)[i]]
        t.contains(b) && 0 <= i < scn.legal_black_spec(scn.laws, b).len() implies {
            let w = scn.legal_black_spec(scn.laws, b)[i];
            accepting(scn, btm, w) || exists|j: int|
                0 <= j < scn.legal_white_spec(scn.laws, w).len() && t.contains(#[trigger] scn.legal_white_spec(scn.laws, w)[j])
        } by {
        let w = scn.legal_black_spec(scn.laws, b)[i];
        let wi = lemma_region_white_node(g, scn, btm, b, i);
        assert(yw[wi]);
        lemma_attractor_justified(g.in_z_w@, g.in_z_b@, g.wb_succ@, g.bw_succ@, g.is_accept_w@, no_seeds(g.in_z_b@.len()), yw, yb, wi);
        if !g.is_accept_w@[wi] {
            let l = g.wb_succ@[wi]@;
            let k = choose|k: int| 0 <= k < l.len() && g.in_z_b@[#[trigger] l[k] as int] && yb[l[k] as int];
            assert(white_edges_ok(scn, w, l, g.b_list@, g.b_index.view_map()));
            assert(l.contains(l[k]));
            let lw = scn.legal_white_spec(scn.laws, w);
            let bn = g.b_list@[l[k] as int];
            assert(lw.contains(bn));
            let j = choose|j: int| 0 <= j < lw.len() && lw[j] == bn;
            assert(t.contains(bn));
            assert(t.contains(lw[j]));
        }
    }
}

/// Compute the maximal tempo trap via a Büchi winning-region algorithm.
///
/// The result is a subset of `btm_trap` from which, after any black move, White can pass or
/// reply into the result, and it holds every subset of `btm_trap` on which White wins the
/// tempo game.
pub fn tempo_trap_buchi<D: DomainLike, L: LawsLike, P>(
    scn: &Scenario<D, L, P>,
    btm_trap: &StateSet,
) -> (r: Result<StateSet, SearchError>)
    ensures
        r is Ok ==> r->Ok_0.view_set().subset_of(btm_trap.view_set()),
        r is Ok ==> tempo_step_ok(*scn, btm_trap.view_set(), r->Ok_0.view_set()),
        r is Ok ==> forall|t: Set<State>| #[trigger] tempo_winning(*scn, btm_trap.view_set(), t)
            ==> t.subset_of(r->Ok_0.view_set()),
        !buchi_inputs_ok(*scn, btm_trap.view_set()) ==> r is Err && r->Err_0 is InvalidScenario,
        buchi_inputs_ok(*scn, btm_trap.view_set()) && btm_trap.view_set().len() > scn.limits.max_states
            ==> r matches Err(SearchError::LimitExceeded { .. }),
        r is Err ==> over_budget_or_alloc(scn.limits, r->Err_0)
            || (r->Err_0 is InvalidScenario && !buchi_inputs_ok(*scn, btm_trap.view_set())),
{
    let g = compute_winning_region(scn, btm_trap)?;
    let t = extract_b_set(&g);
    proof {
        lemma_region_tempo_step(g, *scn, btm_trap.view_set());
        lemma_region_maximal(g, *scn, btm_trap.view_set());
        assert forall|s: State| t.view_set().contains(s) implies btm_trap.view_set().contains(s) by {
            let i = choose|i: int| 0 <= i < g.b_list@.len() && g.in_z_b@[i] && #[trigger] g.b_list@[i] == s;
            assert(g.b_list@.to_set().contains(g.b_list@[i]));
        }
    }
    Ok(t)
}

/// Compute the maximal tempo trap plus a memoryless White strategy within it.
///
/// On success the set is the greatest subset of `btm_trap` on which White wins the tempo game,
/// and the strategy is keyed by white-to-move states (after a black move) and picks a
/// black-to-move successor; after any black move from the tempo trap it has a legal reply
/// that stays in the tempo trap, and it passes wherever passing stays in the tempo trap. It
/// fails with `InvalidScenario` on valid inputs when a white node of the computed region has no
/// reply into it.
pub fn tempo_trap_buchi_with_strategy<D: DomainLike, L: LawsLike, P>(
    scn: &Scenario<D, L, P>,
    btm_trap: &StateSet,
) -> (r: Result<(StateSet, StateMoves), SearchError>)
    ensures
        r is Ok ==> r->Ok_0.0.view_set().subset_of(btm_trap.view_set()),
        r is Ok ==> tempo_step_ok(*scn, btm_trap.view_set(), r->Ok_0.0.view_set()),
        r is Ok ==> strategy_keeps(*scn, r->Ok_0.0.view_set(), r->Ok_0.1.view_map()),
        r is Ok ==> strategy_passes(*scn, btm_trap.view_set(), r->Ok_0.0.view_set(), r->Ok_0.1.view_map()),
        r is Ok ==> tempo_winning(*scn, btm_trap.view_set(), r->Ok_0.0.view_set()),
        r is Ok ==> forall|w: State| #[trigger] r->Ok_0.1.view_map().contains_key(w) ==> black_move_from(*scn, btm_trap.view_set(), w)
            && r->Ok_0.0.view_set().contains(r->Ok_0.1.view_map()[w]),
        r is Ok ==> forall|t: Set<State>| #[trigger] tempo_winning(*scn, btm_trap.view_set(), t)
            ==> t.subset_of(r->Ok_0.0.view_set()),
        !buchi_inputs_ok(*scn, btm_trap.view_set()) ==> r is Err && r->Err_0 is InvalidScenario,
        buchi_inputs_ok(*scn, btm_trap.view_set()) && btm_trap.view_set().len() > scn.limits.max_states
            ==> r matches Err(SearchError::LimitExceeded { .. }),
        r is Err ==> over_budget_or_alloc(scn.limits, r->Err_0) || r->Err_0 is InvalidScenario,
{
    let g = compute_winning_region(scn, btm_trap)?;
    let t = extract_b_set(&g);
    let m = extract_tempo_strategy::<D, L, P>(&g, Ghost(*scn), Ghost(btm_trap.view_set()))?;
    proof {
        lemma_region_tempo_step(g, *scn, btm_trap.view_set());
        lemma_region_maximal(g, *scn, btm_trap.view_set());
        lemma_region_winning(g, *scn, btm_trap.view_set());
        assert forall|s: State| t.view_set().contains(s) implies btm_trap.view_set().contains(s) by {
            let i = choose|i: int| 0 <= i < g.b_list@.len() && g.in_z_b@[i] && #[trigger] g.b_list@[i] == s;
            assert(g.b_list@.to_set().contains(g.b_list@[i]));
        }
        let tt = t.view_set();
        assert forall|b: State, i: int|
            #![trigger tt.contains(b), scn.legal_black_spec(scn.laws, b)[i]]
            tt.contains(b) && 0 <= i < scn.legal_black_spec(scn.laws, b).len()
                && accepting(*scn, btm_trap.view_set(), scn.legal_black_spec(scn.laws, b)[i])
                && tt.contains(scn.legal_black_spec(scn.laws, b)[i])
            implies m.view_map()[scn.legal_black_spec(scn.laws, b)[i]] == scn.legal_black_spec(scn.laws, b)[i] by {
            let wi = lemma_region_white_node(g, *scn, btm_trap.view_set(), b, i);
            assert(g.is_accept_w@[wi]);
        }
        assert forall|b: State, i: int|
            #![trigger tt.contains(b), scn.legal_black_spec(scn.laws, b)[i]]
            tt.contains(b) && 0 <= i < scn.legal_black_spec(scn.laws, b).len() implies {
                let w = scn.legal_black_spec(scn.laws, b)[i];
                &&& m.view_map().contains_key(w)
                &&& tt.contains(m.view_map()[w])
                &&& scn.legal_white_spec(scn.laws, w).contains(m.view_map()[w])
            } by {
            let wi = lemma_region_white_node(g, *scn, btm_trap.view_set(), b, i);
            assert(g.in_z_w@[wi]);
        }
    }
    Ok((t, m))
}

} // verus!
