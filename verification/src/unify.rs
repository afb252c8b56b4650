//! Syntactic unification by the Martelli–Montanari rules (§B.2): Clear,
//! Open, Orient, Replace with occur check. `unify` returns a most general
//! unifier exactly when the equation system has a unifier.
use vstd::prelude::*;
use crate::term::{
    lemma_tsize_seq_add, lemma_tsize_pos, lemma_tvars_finite, lemma_tvars_seq, lemma_views_of,
    tsize, tsize_seq, tvars, tvars_seq, views_of, Term, TermV, Var, VarV,
};
use crate::subst::{
    apply, apply_seq, bindings_view, compose, lemma_apply_agree, lemma_apply_compose,
    lemma_apply_id, lemma_apply_seq, lemma_occurs_size, lemma_pairs_map_last,
    lemma_single_absorbed, lemma_vars_single, pairs_map, single, Substitution,
};

verus! {

broadcast use vstd::std_specs::vec::group_vec_axioms;

/// An equation `lhs =? rhs`.
#[derive(Debug)]
pub struct Equation {
    pub lhs: Term,
    pub rhs: Term,
}

impl Equation {
    pub fn new(lhs: Term, rhs: Term) -> (r: Equation)
        ensures
            r.lhs@ == lhs@,
            r.rhs@ == rhs@,
    {
        Equation { lhs, rhs }
    }
}

/// Models of a list of equations.
pub open spec fn equations_view(es: Seq<Equation>) -> Seq<(TermV, TermV)> {
    Seq::new(es.len(), |i: int| (es[i].lhs@, es[i].rhs@))
}

/// `θ` solves every equation of the system.
pub open spec fn unifies(theta: Map<VarV, TermV>, es: Seq<(TermV, TermV)>) -> bool {
    forall|i: int| #![trigger es[i]] 0 <= i < es.len() ==> apply(es[i].0, theta) == apply(es[i].1, theta)
}

/// The system has some unifier.
pub open spec fn unifiable(es: Seq<(TermV, TermV)>) -> bool {
    exists|theta: Map<VarV, TermV>| unifies(theta, es)
}

/// `σ` is a most general unifier: it unifies, and every unifier factors through it.
pub open spec fn is_mgu(sigma: Map<VarV, TermV>, es: Seq<(TermV, TermV)>) -> bool {
    &&& unifies(sigma, es)
    &&& forall|theta: Map<VarV, TermV>, t: TermV|
        unifies(theta, es) ==> #[trigger] apply(apply(t, sigma), theta) == apply(t, theta)
}

/// No variable is bound twice.
pub open spec fn distinct_keys(bs: Seq<(VarV, TermV)>) -> bool {
    forall|i: int, j: int| 0 <= i < j < bs.len() ==> bs[i].0 != bs[j].0
}

/// A substitution applied twice is applied once.
pub open spec fn idempotent(sigma: Map<VarV, TermV>) -> bool {
    forall|t: TermV| #[trigger] apply(apply(t, sigma), sigma) == apply(t, sigma)
}

// ─────────────────────────────────────────────────────────────────────────
// Equation systems in the model
// ─────────────────────────────────────────────────────────────────────────

pub open spec fn eqs_vars(w: Seq<(TermV, TermV)>) -> Set<VarV>
    decreases w.len(),
{
    if w.len() == 0 {
        Set::empty()
    } else {
        eqs_vars(w.drop_last()).union(tvars(w.last().0)).union(tvars(w.last().1))
    }
}

pub open spec fn eqs_size(w: Seq<(TermV, TermV)>) -> nat
    decreases w.len(),
{
    if w.len() == 0 {
        0
    } else {
        eqs_size(w.drop_last()) + tsize(w.last().0) + tsize(w.last().1)
    }
}

pub open spec fn solved_eqs(s: Seq<(VarV, TermV)>) -> Seq<(TermV, TermV)> {
    Seq::new(s.len() as nat, |i: int| (TermV::Var(s[i].0), s[i].1))
}

pub open spec fn subst_eqs(w: Seq<(TermV, TermV)>, x: VarV, t: TermV) -> Seq<(TermV, TermV)> {
    Seq::new(w.len(), |i: int| (apply(w[i].0, single(x, t)), apply(w[i].1, single(x, t))))
}

pub open spec fn subst_solved(s: Seq<(VarV, TermV)>, x: VarV, t: TermV) -> Seq<(VarV, TermV)> {
    Seq::new(s.len() as nat, |i: int| (s[i].0, apply(s[i].1, single(x, t))))
}

pub open spec fn zip_args(a: Seq<TermV>, b: Seq<TermV>) -> Seq<(TermV, TermV)> {
    Seq::new(a.len(), |i: int| (a[i], b[i]))
}

/// The work list and solved part together have the unifiers of the original system.
pub open spec fn equiv_sys(
    e0: Seq<(TermV, TermV)>,
    w: Seq<(TermV, TermV)>,
    s: Seq<(VarV, TermV)>,
) -> bool {
    forall|theta: Map<VarV, TermV>| #[trigger]
        unifies(theta, e0) <==> (unifies(theta, w) && unifies(theta, solved_eqs(s)))
}

/// Solved part in solved form, its variables eliminated from the work list.
pub open spec fn solved_form(w: Seq<(TermV, TermV)>, s: Seq<(VarV, TermV)>) -> bool {
    &&& forall|i: int, j: int| 0 <= i < j < s.len() ==> s[i].0 != s[j].0
    &&& forall|i: int, j: int|
        0 <= i < s.len() && 0 <= j < s.len() ==> !#[trigger] tvars(s[j].1).contains(s[i].0)
    &&& forall|i: int| 0 <= i < s.len() ==> !#[trigger] eqs_vars(w).contains(s[i].0)
}

pub proof fn lemma_eqs_vars(w: Seq<(TermV, TermV)>)
    ensures
        eqs_vars(w).finite(),
        forall|x: VarV| #[trigger]
            eqs_vars(w).contains(x) <==> exists|i: int|
                0 <= i < w.len() && (tvars(w[i].0).contains(x) || tvars(w[i].1).contains(x)),
    decreases w.len(),
{
    if w.len() > 0 {
        lemma_eqs_vars(w.drop_last());
        lemma_tvars_finite(w.last().0);
        lemma_tvars_finite(w.last().1);
        assert forall|x: VarV| #[trigger]
            eqs_vars(w).contains(x) <==> exists|i: int|
                0 <= i < w.len() && (tvars(w[i].0).contains(x) || tvars(w[i].1).contains(x)) by {
            if eqs_vars(w.drop_last()).contains(x) {
                let i = choose|i: int|
                    0 <= i < w.drop_last().len() && (tvars(w.drop_last()[i].0).contains(x) || tvars(
                        w.drop_last()[i].1,
                    ).contains(x));
                assert(w.drop_last()[i] == w[i]);
            }
            if exists|i: int|
                0 <= i < w.len() && (tvars(w[i].0).contains(x) || tvars(w[i].1).contains(x)) {
                let i = choose|i: int|
                    0 <= i < w.len() && (tvars(w[i].0).contains(x) || tvars(w[i].1).contains(x));
                if i < w.len() - 1 {
                    assert(w.drop_last()[i] == w[i]);
                }
            }
        }
    }
}

pub proof fn lemma_eqs_size_push(w: Seq<(TermV, TermV)>, e: (TermV, TermV))
    ensures
        eqs_size(w.push(e)) == eqs_size(w) + tsize(e.0) + tsize(e.1),
{
    assert(w.push(e).drop_last() =~= w);
}

pub proof fn lemma_eqs_size_add(a: Seq<(TermV, TermV)>, b: Seq<(TermV, TermV)>)
    ensures
        eqs_size(a + b) == eqs_size(a) + eqs_size(b),
    decreases b.len(),
{
    if b.len() == 0 {
        assert(a + b =~= a);
    } else {
        lemma_eqs_size_add(a, b.drop_last());
        assert((a + b).drop_last() =~= a + b.drop_last());
    }
}

pub proof fn lemma_eqs_size_zip(a: Seq<TermV>, b: Seq<TermV>)
    requires
        a.len() == b.len(),
    ensures
        eqs_size(zip_args(a, b)) == tsize_seq(a) + tsize_seq(b),
    decreases a.len(),
{
    if a.len() > 0 {
        lemma_eqs_size_zip(a.drop_last(), b.drop_last());
        assert(zip_args(a, b).drop_last() =~= zip_args(a.drop_last(), b.drop_last()));
    }
}

pub proof fn lemma_unifies_push(theta: Map<VarV, TermV>, w: Seq<(TermV, TermV)>, e: (TermV, TermV))
    ensures
        unifies(theta, w.push(e)) <==> (unifies(theta, w) && apply(e.0, theta) == apply(e.1, theta)),
{
    if unifies(theta, w.push(e)) {
        assert(w.push(e)[w.len() as int] == e);
        assert forall|i: int| 0 <= i < w.len() implies apply(w[i].0, theta) == apply(
            w[i].1,
            theta,
        ) by {
            assert(w.push(e)[i] == w[i]);
        }
    }
    if unifies(theta, w) && apply(e.0, theta) == apply(e.1, theta) {
        assert forall|i: int| 0 <= i < w.push(e).len() implies apply(w.push(e)[i].0, theta)
            == apply(w.push(e)[i].1, theta) by {
            if i < w.len() {
                assert(w.push(e)[i] == w[i]);
            }
        }
    }
}

pub proof fn lemma_unifies_add(theta: Map<VarV, TermV>, a: Seq<(TermV, TermV)>, b: Seq<(TermV, TermV)>)
    ensures
        unifies(theta, a + b) <==> (unifies(theta, a) && unifies(theta, b)),
{
    if unifies(theta, a + b) {
        assert forall|i: int| 0 <= i < a.len() implies apply(a[i].0, theta) == apply(
            a[i].1,
            theta,
        ) by {
            assert((a + b)[i] == a[i]);
        }
        assert forall|i: int| 0 <= i < b.len() implies apply(b[i].0, theta) == apply(
            b[i].1,
            theta,
        ) by {
            assert((a + b)[a.len() + i] == b[i]);
        }
    }
    if unifies(theta, a) && unifies(theta, b) {
        assert forall|i: int| 0 <= i < (a + b).len() implies apply((a + b)[i].0, theta) == apply(
            (a + b)[i].1,
            theta,
        ) by {
            if i < a.len() {
                assert((a + b)[i] == a[i]);
            } else {
                assert((a + b)[i] == b[i - a.len()]);
            }
        }
    }
}

/// Decomposition: `f(a…) = f(b…)` has the unifiers of the argument-wise system.
pub proof fn lemma_unifies_zip(theta: Map<VarV, TermV>, a: Seq<TermV>, b: Seq<TermV>)
    requires
        a.len() == b.len(),
    ensures
        (apply_seq(a, theta) == apply_seq(b, theta)) <==> unifies(theta, zip_args(a, b)),
{
    lemma_apply_seq(a, theta);
    lemma_apply_seq(b, theta);
    if unifies(theta, zip_args(a, b)) {
        assert forall|i: int| 0 <= i < a.len() implies apply_seq(a, theta)[i] == apply_seq(
            b,
            theta,
        )[i] by {
            assert(zip_args(a, b)[i] == (a[i], b[i]));
        }
        assert(apply_seq(a, theta) =~= apply_seq(b, theta));
    }
    if apply_seq(a, theta) == apply_seq(b, theta) {
        assert forall|i: int| 0 <= i < zip_args(a, b).len() implies apply(
            zip_args(a, b)[i].0,
            theta,
        ) == apply(zip_args(a, b)[i].1, theta) by {
            assert(apply_seq(a, theta)[i] == apply_seq(b, theta)[i]);
        }
    }
}

pub proof fn lemma_eqs_vars_zip(a: Seq<TermV>, b: Seq<TermV>)
    requires
        a.len() == b.len(),
    ensures
        eqs_vars(zip_args(a, b)) == tvars_seq(a).union(tvars_seq(b)),
{
    lemma_eqs_vars(zip_args(a, b));
    lemma_tvars_seq(a);
    lemma_tvars_seq(b);
    assert forall|x: VarV| #[trigger] eqs_vars(zip_args(a, b)).contains(x) <==> tvars_seq(a).union(
        tvars_seq(b),
    ).contains(x) by {
        if eqs_vars(zip_args(a, b)).contains(x) {
            let i = choose|i: int|
                0 <= i < zip_args(a, b).len() && (tvars(zip_args(a, b)[i].0).contains(x) || tvars(
                    zip_args(a, b)[i].1,
                ).contains(x));
            assert(zip_args(a, b)[i] == (a[i], b[i]));
        }
        if tvars_seq(a).contains(x) {
            let i = choose|i: int| 0 <= i < a.len() && tvars(a[i]).contains(x);
            assert(zip_args(a, b)[i] == (a[i], b[i]));
        }
        if tvars_seq(b).contains(x) {
            let i = choose|i: int| 0 <= i < b.len() && tvars(b[i]).contains(x);
            assert(zip_args(a, b)[i] == (a[i], b[i]));
        }
    }
    assert(eqs_vars(zip_args(a, b)) =~= tvars_seq(a).union(tvars_seq(b)));
}

pub proof fn lemma_eqs_vars_add(a: Seq<(TermV, TermV)>, b: Seq<(TermV, TermV)>)
    ensures
        eqs_vars(a + b) == eqs_vars(a).union(eqs_vars(b)),
{
    lemma_eqs_vars(a);
    lemma_eqs_vars(b);
    lemma_eqs_vars(a + b);
    assert forall|x: VarV| #[trigger] eqs_vars(a + b).contains(x) <==> eqs_vars(a).union(
        eqs_vars(b),
    ).contains(x) by {
        if eqs_vars(a + b).contains(x) {
            let i = choose|i: int|
                0 <= i < (a + b).len() && (tvars((a + b)[i].0).contains(x) || tvars(
                    (a + b)[i].1,
                ).contains(x));
            if i < a.len() {
                assert((a + b)[i] == a[i]);
            } else {
                assert((a + b)[i] == b[i - a.len()]);
            }
        }
        if eqs_vars(a).contains(x) {
            let i = choose|i: int|
                0 <= i < a.len() && (tvars(a[i].0).contains(x) || tvars(a[i].1).contains(x));
            assert((a + b)[i] == a[i]);
        }
        if eqs_vars(b).contains(x) {
            let i = choose|i: int|
                0 <= i < b.len() && (tvars(b[i].0).contains(x) || tvars(b[i].1).contains(x));
            assert((a + b)[a.len() + i] == b[i]);
        }
    }
    assert(eqs_vars(a + b) =~= eqs_vars(a).union(eqs_vars(b)));
}

pub proof fn lemma_eqs_vars_push(w: Seq<(TermV, TermV)>, e: (TermV, TermV))
    ensures
        eqs_vars(w.push(e)) == eqs_vars(w).union(tvars(e.0)).union(tvars(e.1)),
{
    assert(w.push(e).drop_last() =~= w);
}

/// Orient: swapping the sides of the last equation keeps the unifiers.
pub proof fn lemma_orient(
    e0: Seq<(TermV, TermV)>,
    w: Seq<(TermV, TermV)>,
    s: Seq<(VarV, TermV)>,
    a: TermV,
    b: TermV,
)
    requires
        equiv_sys(e0, w.push((a, b)), s),
    ensures
        equiv_sys(e0, w.push((b, a)), s),
        eqs_vars(w.push((b, a))) == eqs_vars(w.push((a, b))),
        eqs_size(w.push((b, a))) == eqs_size(w.push((a, b))),
{
    assert forall|theta: Map<VarV, TermV>| #[trigger]
        unifies(theta, e0) <==> (unifies(theta, w.push((b, a))) && unifies(
            theta,
            solved_eqs(s),
        )) by {
        lemma_unifies_push(theta, w, (a, b));
        lemma_unifies_push(theta, w, (b, a));
    }
    lemma_eqs_vars_push(w, (a, b));
    lemma_eqs_vars_push(w, (b, a));
    lemma_eqs_size_push(w, (a, b));
    lemma_eqs_size_push(w, (b, a));
}

/// Replace: eliminating `x ↦ t` from the work list.
pub proof fn lemma_eliminate(
    e0: Seq<(TermV, TermV)>,
    w: Seq<(TermV, TermV)>,
    s: Seq<(VarV, TermV)>,
    x: VarV,
    t: TermV,
)
    requires
        equiv_sys(e0, w.push((TermV::Var(x), t)), s),
        solved_form(w.push((TermV::Var(x), t)), s),
        !tvars(t).contains(x),
    ensures
        equiv_sys(e0, subst_eqs(w, x, t), subst_solved(s, x, t).push((x, t))),
        solved_form(subst_eqs(w, x, t), subst_solved(s, x, t).push((x, t))),
        eqs_vars(subst_eqs(w, x, t)).subset_of(eqs_vars(w.push((TermV::Var(x), t))).remove(x)),
        eqs_vars(w.push((TermV::Var(x), t))).contains(x),
{
    let wx = w.push((TermV::Var(x), t));
    let w2 = subst_eqs(w, x, t);
    let s2 = subst_solved(s, x, t).push((x, t));
    lemma_eqs_vars_push(w, (TermV::Var(x), t));
    lemma_eqs_vars(w);
    lemma_eqs_vars(w2);
    // vars of the new work list
    assert forall|y: VarV| eqs_vars(w2).contains(y) implies eqs_vars(wx).remove(x).contains(y) by {
        let i = choose|i: int|
            0 <= i < w2.len() && (tvars(w2[i].0).contains(y) || tvars(w2[i].1).contains(y));
        lemma_vars_single(w[i].0, x, t);
        lemma_vars_single(w[i].1, x, t);
        assert(eqs_vars(w).contains(y) || tvars(t).contains(y));
    }
    // unifiers
    assert forall|theta: Map<VarV, TermV>| #[trigger]
        unifies(theta, e0) <==> (unifies(theta, w2) && unifies(theta, solved_eqs(s2))) by {
        lemma_unifies_push(theta, w, (TermV::Var(x), t));
        let se = solved_eqs(s);
        let se2 = solved_eqs(s2);
        assert(se2[s.len() as int] == (TermV::Var(x), t));
        if apply(TermV::Var(x), theta) == apply(t, theta) {
            assert forall|i: int| 0 <= i < w.len() implies (apply(w2[i].0, theta) == apply(
                w[i].0,
                theta,
            ) && apply(w2[i].1, theta) == apply(w[i].1, theta)) by {
                lemma_single_absorbed(w[i].0, x, t, theta);
                lemma_single_absorbed(w[i].1, x, t, theta);
            }
            assert forall|i: int| 0 <= i < s.len() implies apply(se2[i].1, theta) == apply(
                se[i].1,
                theta,
            ) by {
                lemma_single_absorbed(s[i].1, x, t, theta);
            }
            assert(unifies(theta, w2) <==> unifies(theta, w)) by {
                if unifies(theta, w2) {
                    assert forall|i: int| 0 <= i < w.len() implies apply(w[i].0, theta) == apply(
                        w[i].1,
                        theta,
                    ) by {
                        assert(w2[i] == w2[i]);
                    }
                }
                if unifies(theta, w) {
                    assert forall|i: int| 0 <= i < w2.len() implies apply(w2[i].0, theta)
                        == apply(w2[i].1, theta) by {
                        assert(w[i] == w[i]);
                    }
                }
            }
            assert(unifies(theta, se2) <==> unifies(theta, se)) by {
                if unifies(theta, se2) {
                    assert forall|i: int| 0 <= i < se.len() implies apply(se[i].0, theta) == apply(
                        se[i].1,
                        theta,
                    ) by {
                        assert(se2[i] == se2[i]);
                    }
                }
                if unifies(theta, se) {
                    assert forall|i: int| 0 <= i < se2.len() implies apply(se2[i].0, theta)
                        == apply(se2[i].1, theta) by {
                        if i < s.len() {
                            assert(se[i] == se[i]);
                        }
                    }
                }
            }
        } else {
            assert(!unifies(theta, se2)) by {
                assert(se2[s.len() as int] == se2[s.len() as int]);
            }
        }
    }
    // solved form
    assert forall|i: int, j: int| 0 <= i < s2.len() && 0 <= j < s2.len() implies !#[trigger] tvars(
        s2[j].1,
    ).contains(s2[i].0) by {
        if j < s.len() {
            lemma_vars_single(s[j].1, x, t);
        }
        if i < s.len() {
            assert(!eqs_vars(wx).contains(s[i].0));
        }
    }
    assert forall|i: int| 0 <= i < s2.len() implies !#[trigger] eqs_vars(w2).contains(s2[i].0) by {
        if i < s.len() {
            assert(!eqs_vars(wx).contains(s[i].0));
        }
    }
    assert forall|i: int, j: int| 0 <= i < j < s2.len() implies s2[i].0 != s2[j].0 by {
        if j == s.len() {
            assert(!eqs_vars(wx).contains(s[i].0));
        }
    }
}

/// At the end, the solved part is a most general idempotent unifier.
pub proof fn lemma_solved_is_mgu(e0: Seq<(TermV, TermV)>, s: Seq<(VarV, TermV)>)
    requires
        equiv_sys(e0, Seq::empty(), s),
        solved_form(Seq::empty(), s),
    ensures
        is_mgu(pairs_map(s), e0),
        idempotent(pairs_map(s)),
{
    let sigma = pairs_map(s);
    let se = solved_eqs(s);
    assert forall|i: int| 0 <= i < s.len() implies sigma.contains_key(s[i].0) && sigma[s[i].0]
        == s[i].1 && apply(s[i].1, sigma) == s[i].1 by {
        lemma_pairs_map_last(s, i, s[i].0);
        assert forall|x: VarV| tvars(s[i].1).contains(x) implies !sigma.contains_key(x) by {
            if sigma.contains_key(x) {
                lemma_dom_pairs_map(s, x);
                let k = choose|k: int| 0 <= k < s.len() && s[k].0 == x;
                assert(!tvars(s[i].1).contains(s[k].0));
            }
        }
        lemma_apply_id(s[i].1, sigma);
    }
    assert(unifies(sigma, se)) by {
        assert forall|i: int| 0 <= i < se.len() implies apply(se[i].0, sigma) == apply(
            se[i].1,
            sigma,
        ) by {}
    }
    assert(unifies(sigma, Seq::<(TermV, TermV)>::empty()));
    assert(unifies(sigma, e0));
    assert forall|theta: Map<VarV, TermV>, t: TermV|
        unifies(theta, e0) implies #[trigger] apply(apply(t, sigma), theta) == apply(t, theta) by {
        assert(unifies(theta, se));
        lemma_apply_compose(t, theta, sigma);
        assert forall|x: VarV| #[trigger] tvars(t).contains(x) implies apply(
            TermV::Var(x),
            compose(theta, sigma),
        ) == apply(TermV::Var(x), theta) by {
            if sigma.contains_key(x) {
                lemma_dom_pairs_map(s, x);
                let k = choose|k: int| 0 <= k < s.len() && s[k].0 == x;
                assert(se[k] == (TermV::Var(x), s[k].1));
            }
        }
        lemma_apply_agree(t, compose(theta, sigma), theta);
    }
}

pub proof fn lemma_dom_pairs_map(s: Seq<(VarV, TermV)>, x: VarV)
    ensures
        pairs_map(s).contains_key(x) <==> exists|k: int| 0 <= k < s.len() && s[k].0 == x,
    decreases s.len(),
{
    if s.len() > 0 {
        lemma_dom_pairs_map(s.drop_last(), x);
        if exists|k: int| 0 <= k < s.drop_last().len() && s.drop_last()[k].0 == x {
            let k = choose|k: int| 0 <= k < s.drop_last().len() && s.drop_last()[k].0 == x;
            assert(s.drop_last()[k] == s[k]);
        }
        if exists|k: int| 0 <= k < s.len() && s[k].0 == x {
            let k = choose|k: int| 0 <= k < s.len() && s[k].0 == x;
            if k < s.len() - 1 {
                assert(s.drop_last()[k] == s[k]);
            }
        }
    }
}

// ─────────────────────────────────────────────────────────────────────────
// Executable unification
// ─────────────────────────────────────────────────────────────────────────

pub open spec fn work_view(w: Seq<(Term, Term)>) -> Seq<(TermV, TermV)> {
    Seq::new(w.len(), |i: int| (w[i].0@, w[i].1@))
}

/// Does `x` occur in `t`?
pub fn occurs(x: &Var, t: &Term) -> (r: bool)
    ensures
        r == tvars(t@).contains(x@),
    decreases t,
{
    match t {
        Term::Var(y) => x.same(y),
        Term::App(_, args) => {
            let mut i: usize = 0;
            proof {
                lemma_views_of(args@);
                lemma_tvars_seq(views_of(args@));
            }
            #[verifier::loop_isolation(false)]
            while i < args.len()
                invariant
                    i <= args.len(),
                    forall|k: int| 0 <= k < i ==> !tvars(args[k]@).contains(x@),
                decreases args.len() - i,
            {
                proof {
                    assert(decreases_to!(args => args[i as int]));
                }
                if occurs(x, &args[i]) {
                    proof {
                        assert(views_of(args@)[i as int] == args[i as int]@);
                    }
                    return true;
                }
                i += 1;
            }
            proof {
                if tvars_seq(views_of(args@)).contains(x@) {
                    let k = choose|k: int|
                        0 <= k < views_of(args@).len() && tvars(views_of(args@)[k]).contains(x@);
                    assert(views_of(args@)[k] == args[k]@);
                }
            }
            false
        },
    }
}

/// Replace `x` by `t` throughout a work list.
fn subst_work(w: &Vec<(Term, Term)>, s1: &Substitution) -> (r: Vec<(Term, Term)>)
    ensures
        work_view(r@) == Seq::new(
            w.len() as nat,
            |i: int| (apply(w[i].0@, s1@), apply(w[i].1@, s1@)),
        ),
{
    let mut out: Vec<(Term, Term)> = Vec::new();
    let mut i: usize = 0;
    while i < w.len()
        invariant
            i <= w.len(),
            out.len() == i,
            forall|k: int|
                0 <= k < i ==> #[trigger] out[k].0@ == apply(w[k].0@, s1@) && out[k].1@ == apply(
                    w[k].1@,
                    s1@,
                ),
        decreases w.len() - i,
    {
        out.push((s1.apply(&w[i].0), s1.apply(&w[i].1)));
        i += 1;
    }
    proof {
        assert(work_view(out@) =~= Seq::new(
            w.len() as nat,
            |i: int| (apply(w[i].0@, s1@), apply(w[i].1@, s1@)),
        ));
    }
    out
}

fn subst_solved_exec(s: &Vec<(Var, Term)>, s1: &Substitution) -> (r: Vec<(Var, Term)>)
    ensures
        bindings_view(r@) == Seq::new(s.len() as nat, |i: int| (s[i].0@, apply(s[i].1@, s1@))),
{
    let mut out: Vec<(Var, Term)> = Vec::new();
    let mut i: usize = 0;
    while i < s.len()
        invariant
            i <= s.len(),
            out.len() == i,
            forall|k: int|
                0 <= k < i ==> #[trigger] out[k].0@ == s[k].0@ && out[k].1@ == apply(s[k].1@, s1@),
        decreases s.len() - i,
    {
        out.push((s[i].0.dup(), s1.apply(&s[i].1)));
        i += 1;
    }
    proof {
        assert(bindings_view(out@) =~= Seq::new(
            s.len() as nat,
            |i: int| (s[i].0@, apply(s[i].1@, s1@)),
        ));
    }
    out
}

/// Most general unifier of an equation system (§B.2).
///
/// Returns `Some(σ)` exactly when the system has a unifier; `σ` is then a
/// most general, idempotent unifier. `None` signals a clash (different
/// symbols or arities) or a failed occur check.
pub fn unify(eqs: Vec<Equation>) -> (r: Option<Substitution>)
    ensures
        r is Some <==> unifiable(equations_view(eqs@)),
        r is Some ==> is_mgu(r.unwrap()@, equations_view(eqs@)),
        r is Some ==> idempotent(r.unwrap()@),
        r is Some ==> distinct_keys(bindings_view(r.unwrap().pairs@)),
{
    let ghost e0 = equations_view(eqs@);
    let mut work: Vec<(Term, Term)> = Vec::new();
    let mut es = eqs;
    let ghost orig = es@;
    while es.len() > 0
        invariant
            work.len() + es.len() == orig.len(),
            es@ == orig.subrange(work.len() as int, orig.len() as int),
            forall|k: int|
                0 <= k < work.len() ==> #[trigger] work[k].0@ == orig[k].lhs@ && work[k].1@
                    == orig[k].rhs@,
        decreases es.len(),
    {
        let e = es.remove(0);
        let ghost k = work.len() as int;
        proof {
            assert(orig[k] == e);
        }
        work.push((e.lhs, e.rhs));
        proof {
            assert(es@ =~= orig.subrange(work.len() as int, orig.len() as int));
        }
    }
    proof {
        assert(work_view(work@) =~= e0);
    }
    let mut solved: Vec<(Var, Term)> = Vec::new();
    proof {
        lemma_eqs_vars(work_view(work@));
        assert forall|theta: Map<VarV, TermV>| #[trigger]
            unifies(theta, e0) <==> (unifies(theta, work_view(work@)) && unifies(
                theta,
                solved_eqs(bindings_view(solved@)),
            )) by {}
    }
    while work.len() > 0
        invariant
            e0 == equations_view(eqs@),
            equiv_sys(e0, work_view(work@), bindings_view(solved@)),
            solved_form(work_view(work@), bindings_view(solved@)),
            eqs_vars(work_view(work@)).finite(),
        decreases eqs_vars(work_view(work@)).len(), eqs_size(work_view(work@)),
    {
        let ghost w_before = work_view(work@);
        let ghost s_before = bindings_view(solved@);
        let (a, b) = work.pop().unwrap();
        let ghost w = work_view(work@);
        proof {
            assert(w_before =~= w.push((a@, b@)));
            lemma_eqs_vars(w);
            lemma_eqs_vars_push(w, (a@, b@));
            lemma_eqs_size_push(w, (a@, b@));
            lemma_tsize_pos(a@);
            lemma_tsize_pos(b@);
        }
        // Orient: put a variable on the left.
        let (a, b) = if !a.is_var() && b.is_var() {
            proof {
                lemma_orient(e0, w, s_before, a@, b@);
            }
            (b, a)
        } else {
            (a, b)
        };
        match a {
            Term::Var(x) => {
                if b.same(&Term::Var(x.dup())) {
                    // Clear.
                    proof {
                        assert forall|theta: Map<VarV, TermV>| #[trigger]
                            unifies(theta, e0) <==> (unifies(theta, w) && unifies(
                                theta,
                                solved_eqs(s_before),
                            )) by {
                            lemma_unifies_push(theta, w, (a@, b@));
                        }
                        assert(eqs_vars(w).subset_of(eqs_vars(w.push((a@, b@)))));
                        vstd::set_lib::lemma_len_subset(eqs_vars(w), eqs_vars(w.push((a@, b@))));
                    }
                    continue;
                }
                if occurs(&x, &b) {
                    proof {
                        assert forall|theta: Map<VarV, TermV>| !unifies(theta, e0) by {
                            lemma_unifies_push(theta, w, (TermV::Var(x@), b@));
                            lemma_occurs_size(b@, x@, theta);
                        }
                        assert(!unifiable(e0));
                    }
                    return None;
                }
                // Replace.
                let s1 = Substitution { pairs: vec![(x.dup(), b.dup())] };
                proof {
                    assert(bindings_view(s1.pairs@) =~= seq![(x@, b@)]);
                    let sq = seq![(x@, b@)];
                    assert(sq.drop_last() =~= Seq::<(VarV, TermV)>::empty());
                    assert(pairs_map(sq) == pairs_map(sq.drop_last()).insert(sq.last().0, sq.last().1));
                    assert(pairs_map(sq) =~= single(x@, b@));
                    assert(s1@ =~= single(x@, b@));
                    lemma_eliminate(e0, w, s_before, x@, b@);
                }
                let new_work = subst_work(&work, &s1);
                let mut new_solved = subst_solved_exec(&solved, &s1);
                let ghost ns_before = new_solved@;
                let ghost xb = (x@, b@);
                new_solved.push((x, b));
                proof {
                    assert(bindings_view(new_solved@) =~= bindings_view(ns_before).push(xb));
                    assert(work_view(new_work@) =~= subst_eqs(w, x@, b@));
                    assert(bindings_view(new_solved@) =~= subst_solved(s_before, x@, b@).push(
                        (x@, b@),
                    ));
                    let wx = w.push((TermV::Var(x@), b@));
                    lemma_eqs_vars(subst_eqs(w, x@, b@));
                    vstd::set_lib::lemma_len_subset(
                        eqs_vars(subst_eqs(w, x@, b@)),
                        eqs_vars(wx).remove(x@),
                    );
                }
                work = new_work;
                solved = new_solved;
            },
            Term::App(f, fa) => match b {
                Term::App(g, ga) => {
                    if !f.same(&g) || fa.len() != ga.len() {
                        proof {
                            lemma_views_of(fa@);
                            lemma_views_of(ga@);
                            lemma_apply_seq(views_of(fa@), Map::empty());
                            assert forall|theta: Map<VarV, TermV>| !unifies(theta, e0) by {
                                lemma_unifies_push(theta, w, (a@, b@));
                                lemma_apply_seq(views_of(fa@), theta);
                                lemma_apply_seq(views_of(ga@), theta);
                            }
                            assert(!unifiable(e0));
                        }
                        return None;
                    }
                    // Open.
                    let ghost av = views_of(fa@);
                    let ghost bv = views_of(ga@);
                    let mut i: usize = 0;
                    let ghost base = work_view(work@);
                    proof {
                        lemma_views_of(fa@);
                        lemma_views_of(ga@);
                    }
                    while i < fa.len()
                        invariant
                            i <= fa.len(),
                            fa.len() == ga.len(),
                            av == views_of(fa@),
                            bv == views_of(ga@),
                            av.len() == fa.len(),
                            bv.len() == ga.len(),
                            forall|k: int| 0 <= k < fa.len() ==> av[k] == fa[k]@,
                            forall|k: int| 0 <= k < ga.len() ==> bv[k] == ga[k]@,
                            work_view(work@) =~= base + zip_args(av, bv).subrange(0, i as int),
                        decreases fa.len() - i,
                    {
                        let ghost before = work@;
                        work.push((fa[i].dup(), ga[i].dup()));
                        proof {
                            assert(work_view(work@) =~= work_view(before).push((av[i as int], bv[i as int])));
                            assert(zip_args(av, bv).subrange(0, i + 1) =~= zip_args(
                                av,
                                bv,
                            ).subrange(0, i as int).push((av[i as int], bv[i as int])));
                        }
                        i += 1;
                    }
                    proof {
                        let z = zip_args(av, bv);
                        assert(z.subrange(0, i as int) =~= z);
                        assert(work_view(work@) =~= w + z);
                        assert forall|theta: Map<VarV, TermV>| #[trigger]
                            unifies(theta, e0) <==> (unifies(theta, w + z) && unifies(
                                theta,
                                solved_eqs(s_before),
                            )) by {
                            lemma_unifies_push(theta, w, (a@, b@));
                            lemma_unifies_add(theta, w, z);
                            lemma_unifies_zip(theta, av, bv);
                        }
                        lemma_eqs_vars_add(w, z);
                        lemma_eqs_vars_zip(av, bv);
                        assert(eqs_vars(w + z) =~= eqs_vars(w.push((a@, b@))));
                        lemma_eqs_size_add(w, z);
                        lemma_eqs_size_zip(av, bv);
                    }
                },
                Term::Var(_) => {
                    // unreachable after Orient
                    proof {
                        assert(false);
                    }
                    return None;
                },
            },
        }
    }
    proof {
        assert(work_view(work@) =~= Seq::<(TermV, TermV)>::empty());
        lemma_solved_is_mgu(e0, bindings_view(solved@));
    }
    Some(Substitution { pairs: solved })
}

/// A substitution that leaves a term unchanged leaves each of its variables
/// unchanged.
pub proof fn lemma_fixed_term_fixes_vars(u: TermV, s: Map<VarV, TermV>)
    requires
        apply(u, s) == u,
    ensures
        forall|y: VarV| #[trigger] tvars(u).contains(y) ==> apply(TermV::Var(y), s) == TermV::Var(y),
    decreases u,
{
    match u {
        TermV::Var(x) => {},
        TermV::App(f, p, args) => {
            lemma_apply_seq(args, s);
            lemma_tvars_seq(args);
            assert forall|i: int| 0 <= i < args.len() implies apply(args[i], s) == args[i] by {
                assert(apply_seq(args, s)[i] == args[i]);
            }
            assert forall|y: VarV| #[trigger] tvars(u).contains(y) implies apply(TermV::Var(y), s)
                == TermV::Var(y) by {
                assert(tvars_seq(args).contains(y));
                let i = choose|i: int| 0 <= i < args.len() && tvars(args[i]).contains(y);
                lemma_fixed_term_fixes_vars(args[i], s);
            }
        },
    }
}

/// Two most general unifiers of one system differ by a renaming of
/// variables: on every term `t`, the second gives the first's result with
/// each of its variables `y` replaced by a variable `z` that the first maps
/// back to `y`.
pub proof fn lemma_mgu_unique_up_to_renaming(
    s1: Map<VarV, TermV>,
    s2: Map<VarV, TermV>,
    es: Seq<(TermV, TermV)>,
    t: TermV,
)
    requires
        is_mgu(s1, es),
        is_mgu(s2, es),
    ensures
        apply(t, s2) == apply(apply(t, s1), s2),
        apply(t, s1) == apply(apply(t, s2), s1),
        forall|y: VarV| #[trigger] tvars(apply(t, s1)).contains(y) ==> {
            &&& apply(TermV::Var(y), s2) is Var
            &&& apply(apply(TermV::Var(y), s2), s1) == TermV::Var(y)
        },
{
    let u = apply(t, s1);
    assert(apply(apply(t, s1), s2) == apply(t, s2));
    assert(apply(apply(t, s2), s1) == apply(t, s1));
    assert(apply(apply(u, s2), s1) == u) by {
        assert(apply(apply(t, s1), s2) == apply(t, s2));
    }
    lemma_apply_compose(u, s1, s2);
    lemma_fixed_term_fixes_vars(u, compose(s1, s2));
    assert forall|y: VarV| #[trigger] tvars(u).contains(y) implies {
        &&& apply(TermV::Var(y), s2) is Var
        &&& apply(apply(TermV::Var(y), s2), s1) == TermV::Var(y)
    } by {
        lemma_apply_compose(TermV::Var(y), s1, s2);
        assert(apply(TermV::Var(y), compose(s1, s2)) == TermV::Var(y));
    }
}

} // verus!
