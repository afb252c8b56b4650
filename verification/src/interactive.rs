//! Interactive execution `IEx(Φ, Ψ)` (§51).
//!
//! The reference constellation `Φ` is non-linear: every use of one of its
//! stars takes a fresh copy. The interaction space `Ψ` is linear: a star of
//! `Ψ` is consumed when it interacts. One step selects a coloured ray
//! `Ψ[i][j]` and replaces `Ψ[i]` by the sum of
//!
//! * its fusions `Ψ[i] ^{j,jₖ}∇_α Φ[iₖ]` with every matchable `Φ[iₖ][jₖ]`, and
//! * its self-interactions `^{j,jₖ}▷ Ψ[i]` with every matchable `Ψ[i][jₖ]`,
//!
//! a summand vanishing when its unification fails (§51.9). Execution repeats
//! the step on the first redex (left-to-right, top-down) until no coloured
//! ray has a partner (normal form) or the fuel runs out.
use vstd::prelude::*;
use crate::term::{
    lemma_tvars_seq, lemma_views_of, tvars, tvars_seq, views_of, Polarity, Sym, Term, TermV, VarV,
};
use crate::subst::{apply, apply_seq, bindings_view, lemma_apply_seq, pairs_map, Substitution};
use crate::unify::{
    distinct_keys, equations_view, idempotent, is_mgu, lemma_fixed_term_fixes_vars,
    lemma_mgu_unique_up_to_renaming, unifiable, unifies, unify, Equation,
};
use crate::alpha::{lemma_canonical_renaming_invariant, lemma_renames_back, renames_on};
use crate::polarised::lemma_matchable_renamed;
use crate::subst::{compose, lemma_apply_compose, lemma_apply_id};
use crate::constellation::alpha_equiv;
use crate::alpha::{
    alpha_unifiable, lemma_add_vars_seq, lemma_alpha_iff, lemma_renaming, no_dup, renamed_eq,
    renaming, seq_vars,
};
use crate::polarised::{
    head_pol, lemma_underlying_seq, matchable, matchable_spec, underlying, underlying_seq,
    underlying_term,
};
use crate::display::{insert_pair, pair_views, show, sorted_pairs};
use crate::alpha::side_var;
use crate::term::Var;
use crate::constellation::{
    colour_occurs, cons_v, conceal_and_filter, copy_constellation, copy_star, has_colour,
    rename_star, renamed_star, star_v, visible, visible_star, Constellation, Star,
};

verus! {

broadcast use vstd::std_specs::vec::group_vec_axioms;

// ─────────────────────────────────────────────────────────────────────────
// Specification of one step
// ─────────────────────────────────────────────────────────────────────────

/// `Φ[i][j]` is a coloured ray of `Φ` matchable with `r` (§51.6).
pub open spec fn ext_match(phi: Seq<Seq<TermV>>, r: TermV, i: int, j: int) -> bool {
    &&& 0 <= i < phi.len()
    &&& 0 <= j < phi[i].len()
    &&& head_pol(phi[i][j]) != Polarity::Neutral
    &&& matchable_spec(r, phi[i][j])
}

/// `s[k]` is another ray of the star matchable with `s[j]`.
pub open spec fn self_match(s: Seq<TermV>, j: int, k: int) -> bool {
    0 <= k < s.len() && k != j && 0 <= j < s.len() && matchable_spec(s[j], s[k])
}

pub open spec fn lex_lt(a: (int, int), b: (int, int)) -> bool {
    a.0 < b.0 || (a.0 == b.0 && a.1 < b.1)
}

/// `l` lists, in increasing order, exactly the `(i, j)` with `ext_match(Φ, r, i, j)`.
pub open spec fn is_ext_list(phi: Seq<Seq<TermV>>, r: TermV, l: Seq<(int, int)>) -> bool {
    &&& forall|p: int, q: int| 0 <= p < q < l.len() ==> lex_lt(l[p], l[q])
    &&& forall|t: int| 0 <= t < l.len() ==> ext_match(phi, r, #[trigger] l[t].0, l[t].1)
    &&& forall|i: int, j: int| #[trigger] ext_match(phi, r, i, j) ==> l.contains((i, j))
}

/// `l` lists, in increasing order, exactly the other rays of `s` matchable with `s[j]`.
pub open spec fn is_self_list(s: Seq<TermV>, j: int, l: Seq<int>) -> bool {
    &&& forall|p: int, q: int| 0 <= p < q < l.len() ==> l[p] < l[q]
    &&& forall|t: int| 0 <= t < l.len() ==> self_match(s, j, #[trigger] l[t])
    &&& forall|k: int| #[trigger] self_match(s, j, k) ==> l.contains(k)
}

/// `l` lists, in increasing order, exactly the rays of `s` with which `s[j]`
/// has a self-interaction.
pub open spec fn is_self_ok_list(s: Seq<TermV>, j: int, l: Seq<int>) -> bool {
    &&& forall|p: int, q: int| 0 <= p < q < l.len() ==> l[p] < l[q]
    &&& forall|t: int| 0 <= t < l.len() ==> self_ok(s, j, #[trigger] l[t])
    &&& forall|k: int| #[trigger] self_ok(s, j, k) ==> l.contains(k)
}

pub open spec fn pairs_int(v: Seq<(usize, usize)>) -> Seq<(int, int)> {
    Seq::new(v.len(), |t: int| (v[t].0 as int, v[t].1 as int))
}

pub open spec fn idx_int(v: Seq<usize>) -> Seq<int> {
    Seq::new(v.len(), |t: int| v[t] as int)
}

/// The equation solved by the fusion of `s1` along `j` with `s2` along `j2`,
/// the two stars renamed apart.
pub open spec fn fusion_eq(s1: Seq<TermV>, j: int, s2: Seq<TermV>, j2: int) -> Seq<(TermV, TermV)> {
    seq![(underlying(renamed_star(s1, true)[j]), underlying(renamed_star(s2, false)[j2]))]
}

/// The rays that remain after the fusion, before the unifier is applied.
pub open spec fn fusion_rest(s1: Seq<TermV>, j: int, s2: Seq<TermV>, j2: int) -> Seq<TermV> {
    renamed_star(s1, true).remove(j) + renamed_star(s2, false).remove(j2)
}

/// `out` is the fusion `s1 ^{j,j2}∇_α s2` (§49.30): the remaining rays of
/// both renamed-apart stars under a most general unifier of the two rays'
/// underlying terms.
pub open spec fn is_fusion(s1: Seq<TermV>, j: int, s2: Seq<TermV>, j2: int, out: Seq<TermV>) -> bool {
    exists|sigma: Map<VarV, TermV>|
        is_mgu(sigma, fusion_eq(s1, j, s2, j2)) && out == apply_seq(
            fusion_rest(s1, j, s2, j2),
            sigma,
        )
}

/// The equation solved by the self-interaction of `s` along `j` and `k`.
pub open spec fn self_eq(s: Seq<TermV>, j: int, k: int) -> Seq<(TermV, TermV)> {
    seq![(underlying(s[j]), underlying(s[k]))]
}

/// `s` without its rays `j` and `k`.
pub open spec fn remove_two(s: Seq<TermV>, j: int, k: int) -> Seq<TermV> {
    if j < k {
        s.remove(k).remove(j)
    } else {
        s.remove(j).remove(k)
    }
}

/// `out` is the self-interaction `^{j,k}▷ s` (§51.7).
pub open spec fn is_self_interaction(s: Seq<TermV>, j: int, k: int, out: Seq<TermV>) -> bool {
    exists|sigma: Map<VarV, TermV>|
        is_mgu(sigma, self_eq(s, j, k)) && out == apply_seq(remove_two(s, j, k), sigma)
}

/// `s[j]` and `s[k]` are matchable and their self-interaction exists.
pub open spec fn self_ok(s: Seq<TermV>, j: int, k: int) -> bool {
    self_match(s, j, k) && unifiable(self_eq(s, j, k))
}

/// `out` is the interaction space after one step at `Ψ[i][j]` (§51.9).
pub open spec fn step_ok(
    phi: Seq<Seq<TermV>>,
    psi: Seq<Seq<TermV>>,
    i: int,
    j: int,
    out: Seq<Seq<TermV>>,
) -> bool {
    let star = psi[i];
    let rest = psi.remove(i);
    exists|ext: Seq<(int, int)>, sl: Seq<int>|
        {
            &&& is_ext_list(phi, star[j], ext)
            &&& is_self_ok_list(star, j, sl)
            &&& out.len() == rest.len() + ext.len() + sl.len()
            &&& out.subrange(0, rest.len() as int) == rest
            &&& forall|t: int|
                0 <= t < ext.len() ==> is_fusion(
                    star,
                    j,
                    phi[ext[t].0],
                    ext[t].1,
                    #[trigger] out[rest.len() + t],
                )
            &&& forall|t: int|
                0 <= t < sl.len() ==> is_self_interaction(
                    star,
                    j,
                    sl[t],
                    #[trigger] out[rest.len() + ext.len() + t],
                )
        }
}

/// `Ψ[i][j]` is a coloured ray with an external or a self partner.
pub open spec fn has_redex(phi: Seq<Seq<TermV>>, psi: Seq<Seq<TermV>>, i: int, j: int) -> bool {
    &&& 0 <= i < psi.len()
    &&& 0 <= j < psi[i].len()
    &&& head_pol(psi[i][j]) != Polarity::Neutral
    &&& ((exists|a: int, b: int| ext_match(phi, psi[i][j], a, b)) || (exists|k: int|
        self_match(psi[i], j, k)))
}

/// `(i, j)` is the first redex in left-to-right, top-down order.
pub open spec fn is_first_redex(phi: Seq<Seq<TermV>>, psi: Seq<Seq<TermV>>, i: int, j: int) -> bool {
    &&& has_redex(phi, psi, i, j)
    &&& forall|a: int, b: int| lex_lt((a, b), (i, j)) ==> !#[trigger] has_redex(phi, psi, a, b)
}

/// Normal form: no coloured ray of `Ψ` has a partner (§51.9).
pub open spec fn is_nf(phi: Seq<Seq<TermV>>, psi: Seq<Seq<TermV>>) -> bool {
    forall|a: int, b: int| !#[trigger] has_redex(phi, psi, a, b)
}

/// `t` follows from `s` by a step at the first redex of `s`.
pub open spec fn first_step(phi: Seq<Seq<TermV>>, s: Seq<Seq<TermV>>, t: Seq<Seq<TermV>>) -> bool {
    exists|i: int, j: int| is_first_redex(phi, s, i, j) && step_ok(phi, s, i, j, t)
}

/// A run of interactive execution: each state follows from the previous one
/// by a step at its first redex.
pub open spec fn iex_run(phi: Seq<Seq<TermV>>, states: Seq<Seq<Seq<TermV>>>) -> bool {
    forall|k: int| 0 <= k < states.len() - 1 ==> #[trigger] first_step(phi, states[k], states[k + 1])
}

// ─────────────────────────────────────────────────────────────────────────
// Lemmas
// ─────────────────────────────────────────────────────────────────────────

/// A run extended by a step at the first redex of its last state is a run.
pub proof fn lemma_iex_run_push(
    phi: Seq<Seq<TermV>>,
    states: Seq<Seq<Seq<TermV>>>,
    next: Seq<Seq<TermV>>,
    i: int,
    j: int,
)
    requires
        states.len() >= 1,
        iex_run(phi, states),
        is_first_redex(phi, states[states.len() - 1], i, j),
        step_ok(phi, states[states.len() - 1], i, j, next),
    ensures
        iex_run(phi, states.push(next)),
{
    let s2 = states.push(next);
    assert forall|k: int| 0 <= k < s2.len() - 1 implies #[trigger] first_step(phi, s2[k], s2[k + 1]) by {
        if k < states.len() - 1 {
            assert(s2[k] == states[k]);
            assert(s2[k + 1] == states[k + 1]);
            assert(first_step(phi, states[k], states[k + 1]));
        } else {
            assert(s2[k] == states[states.len() - 1]);
            assert(s2[k + 1] == next);
        }
    }
}

/// Renaming variables to variables commutes with taking the underlying term.
pub proof fn lemma_underlying_apply(t: TermV, rho: Map<VarV, TermV>)
    requires
        forall|x: VarV| #[trigger] rho.contains_key(x) ==> rho[x] is Var,
    ensures
        underlying(apply(t, rho)) == apply(underlying(t), rho),
        tvars(underlying(t)) == tvars(t),
    decreases t,
{
    match t {
        TermV::Var(x) => {},
        TermV::App(f, p, args) => {
            lemma_apply_seq(args, rho);
            lemma_underlying_seq(args);
            lemma_underlying_seq(apply_seq(args, rho));
            lemma_apply_seq(underlying_seq(args), rho);
            assert forall|k: int| 0 <= k < args.len() implies underlying(apply(args[k], rho))
                == apply(underlying(args[k]), rho) && tvars(underlying(args[k])) == tvars(args[k]) by {
                lemma_underlying_apply(args[k], rho);
            }
            assert(underlying_seq(apply_seq(args, rho)) =~= apply_seq(underlying_seq(args), rho));
            lemma_tvars_seq(args);
            lemma_tvars_seq(underlying_seq(args));
            assert(tvars_seq(underlying_seq(args)) =~= tvars_seq(args)) by {
                assert forall|x: VarV| tvars_seq(underlying_seq(args)).contains(x) implies tvars_seq(
                    args,
                ).contains(x) by {
                    let k = choose|k: int|
                        0 <= k < underlying_seq(args).len() && tvars(underlying_seq(args)[k]).contains(x);
                    assert(tvars(args[k]).contains(x));
                }
                assert forall|x: VarV| tvars_seq(args).contains(x) implies tvars_seq(
                    underlying_seq(args),
                ).contains(x) by {
                    let k = choose|k: int| 0 <= k < args.len() && tvars(args[k]).contains(x);
                    assert(tvars(underlying_seq(args)[k]).contains(x));
                }
            }
        },
    }
}

/// A fusion exists exactly when the two rays' underlying terms are α-unifiable.
pub proof fn lemma_fusion_unifiable(s1: Seq<TermV>, j: int, s2: Seq<TermV>, j2: int)
    requires
        0 <= j < s1.len(),
        0 <= j2 < s2.len(),
    ensures
        unifiable(fusion_eq(s1, j, s2, j2)) <==> alpha_unifiable(
            underlying(s1[j]),
            underlying(s2[j2]),
        ),
{
    let va = seq_vars(s1);
    let vb = seq_vars(s2);
    lemma_add_vars_seq(Seq::empty(), s1);
    lemma_add_vars_seq(Seq::empty(), s2);
    lemma_renaming(va, true);
    lemma_renaming(vb, false);
    lemma_tvars_seq(s1);
    lemma_tvars_seq(s2);
    lemma_underlying_apply(s1[j], renaming(va, true));
    lemma_underlying_apply(s2[j2], renaming(vb, false));
    assert forall|x: VarV| tvars(underlying(s1[j])).contains(x) implies va.contains(x) by {
        assert(tvars_seq(s1).contains(x));
    }
    assert forall|x: VarV| tvars(underlying(s2[j2])).contains(x) implies vb.contains(x) by {
        assert(tvars_seq(s2).contains(x));
    }
    lemma_alpha_iff(underlying(s1[j]), va, underlying(s2[j2]), vb);
    assert(fusion_eq(s1, j, s2, j2) =~= renamed_eq(underlying(s1[j]), va, underlying(s2[j2]), vb));
}

/// Every external match yields a summand: matchable rays always fuse.
pub proof fn lemma_match_fuses(phi: Seq<Seq<TermV>>, s: Seq<TermV>, j: int, i: int, jk: int)
    requires
        0 <= j < s.len(),
        ext_match(phi, s[j], i, jk),
    ensures
        unifiable(fusion_eq(s, j, phi[i], jk)),
{
    lemma_fusion_unifiable(s, j, phi[i], jk);
}

// ─────────────────────────────────────────────────────────────────────────
// Matchable rays
// ─────────────────────────────────────────────────────────────────────────

/// All coloured rays of `Φ` matchable with `r`, in order (no colour filter).
fn mat_ext(phi: &Constellation, r: &Term) -> (res: Vec<(usize, usize)>)
    ensures
        is_ext_list(cons_v(phi@), r@, pairs_int(res@)),
{
    let ghost cv = cons_v(phi@);
    let mut res: Vec<(usize, usize)> = Vec::new();
    let mut i: usize = 0;
    while i < phi.len()
        invariant
            i <= phi.len(),
            cv == cons_v(phi@),
            forall|p: int, q: int| 0 <= p < q < res.len() ==> lex_lt(pairs_int(res@)[p], pairs_int(res@)[q]),
            forall|t: int| 0 <= t < res.len() ==> (#[trigger] pairs_int(res@)[t]).0 < i,
            forall|t: int|
                0 <= t < res.len() ==> ext_match(cv, r@, #[trigger] pairs_int(res@)[t].0, pairs_int(res@)[t].1),
            forall|a: int, b: int|
                a < i && #[trigger] ext_match(cv, r@, a, b) ==> pairs_int(res@).contains((a, b)),
        decreases phi.len() - i,
    {
        let star = &phi[i];
        proof {
            lemma_views_of(star@);
        }
        let mut j: usize = 0;
        while j < star.len()
            invariant
                i < phi.len(),
                star == phi[i as int],
                cv == cons_v(phi@),
                cv[i as int] == views_of(star@),
                views_of(star@).len() == star.len(),
                forall|k: int| 0 <= k < star.len() ==> views_of(star@)[k] == star[k]@,
                j <= star.len(),
                forall|p: int, q: int| 0 <= p < q < res.len() ==> lex_lt(pairs_int(res@)[p], pairs_int(res@)[q]),
                forall|t: int| 0 <= t < res.len() ==> lex_lt(#[trigger] pairs_int(res@)[t], (i as int, j as int)),
                forall|t: int|
                    0 <= t < res.len() ==> ext_match(cv, r@, #[trigger] pairs_int(res@)[t].0, pairs_int(res@)[t].1),
                forall|a: int, b: int|
                    (a < i || (a == i && b < j)) && #[trigger] ext_match(cv, r@, a, b) ==> pairs_int(
                        res@,
                    ).contains((a, b)),
            decreases star.len() - j,
        {
            let ray = &star[j];
            let coloured = match ray {
                Term::App(f, _) => f.pol != Polarity::Neutral,
                Term::Var(_) => false,
            };
            let ghost before = res@;
            if coloured && matchable(r, ray) {
                res.push((i, j));
                proof {
                    assert(pairs_int(res@) =~= pairs_int(before).push((i as int, j as int)));
                    assert(ext_match(cv, r@, i as int, j as int));
                }
            }
            proof {
                assert forall|a: int, b: int|
                    (a < i || (a == i && b < j + 1)) && #[trigger] ext_match(cv, r@, a, b) implies pairs_int(
                        res@,
                    ).contains((a, b)) by {
                    if a == i && b == j {
                        assert(pairs_int(res@)[res.len() - 1] == (a, b));
                    } else {
                        let t = choose|t: int| 0 <= t < pairs_int(before).len() && pairs_int(before)[t] == (a, b);
                        assert(pairs_int(res@)[t] == (a, b));
                    }
                }
            }
            j += 1;
        }
        i += 1;
    }
    proof {
        assert forall|a: int, b: int| #[trigger] ext_match(cv, r@, a, b) implies pairs_int(res@).contains(
            (a, b),
        ) by {}
    }
    res
}

/// The colour of `r` occurs in the colour set of `Φ` (and optionally of `Ψ`).
pub open spec fn colour_ok(c: Seq<Seq<TermV>>, r: TermV) -> bool {
    match r {
        TermV::App(f, p, _) => p == Polarity::Neutral || has_colour(c, f, p),
        TermV::Var(_) => true,
    }
}

/// `mat_Φ^C(r)` (§51.6), with `C` the colours of `Φ`: the coloured rays of
/// `Φ` matchable with `r`, provided `r`'s own colour is in `C`.
pub fn mat_phi(phi: &Constellation, r: &Term) -> (res: Vec<(usize, usize)>)
    ensures
        colour_ok(cons_v(phi@), r@) ==> is_ext_list(cons_v(phi@), r@, pairs_int(res@)),
        !colour_ok(cons_v(phi@), r@) ==> res.len() == 0,
{
    let ok = match r {
        Term::App(f, _) => f.pol == Polarity::Neutral || colour_occurs(phi, f),
        Term::Var(_) => true,
    };
    if ok {
        mat_ext(phi, r)
    } else {
        Vec::new()
    }
}

/// `mat_Φ^C(r)` for a configuration `Φ ⊢ Ψ`: `C` holds the colours of `Φ` and `Ψ`.
pub fn mat_phi_colored(phi: &Constellation, psi: &Vec<Star>, r: &Term) -> (res: Vec<(usize, usize)>)
    ensures
        colour_ok(cons_v(phi@) + cons_v(psi@), r@) ==> is_ext_list(cons_v(phi@), r@, pairs_int(res@)),
        !colour_ok(cons_v(phi@) + cons_v(psi@), r@) ==> res.len() == 0,
{
    let ok = match r {
        Term::App(f, _) => f.pol == Polarity::Neutral || colour_occurs(phi, f) || colour_occurs(psi, f),
        Term::Var(_) => true,
    };
    proof {
        let a = cons_v(phi@);
        let b = cons_v(psi@);
        if let TermV::App(f, p, _) = r@ {
            if has_colour(a + b, f, p) {
                let (i, j) = choose|i: int, j: int|
                    0 <= i < (a + b).len() && 0 <= j < (a + b)[i].len() && crate::constellation::ray_colour(
                        #[trigger] (a + b)[i][j],
                    ) == Some((f, p));
                if i < a.len() {
                    assert((a + b)[i] == a[i]);
                    assert(has_colour(a, f, p));
                } else {
                    assert((a + b)[i] == b[i - a.len()]);
                    assert(has_colour(b, f, p));
                }
            }
            if has_colour(a, f, p) {
                let (i, j) = choose|i: int, j: int|
                    0 <= i < a.len() && 0 <= j < a[i].len() && crate::constellation::ray_colour(
                        #[trigger] a[i][j],
                    ) == Some((f, p));
                assert((a + b)[i] == a[i]);
            }
            if has_colour(b, f, p) {
                let (i, j) = choose|i: int, j: int|
                    0 <= i < b.len() && 0 <= j < b[i].len() && crate::constellation::ray_colour(
                        #[trigger] b[i][j],
                    ) == Some((f, p));
                assert((a + b)[a.len() + i] == b[i]);
            }
        }
    }
    if ok {
        mat_ext(phi, r)
    } else {
        Vec::new()
    }
}

/// The other rays of the star matchable with `star[j]`, in order.
pub fn mat_self(star: &Star, j: usize) -> (res: Vec<usize>)
    requires
        j < star.len(),
    ensures
        is_self_list(star_v(star@), j as int, idx_int(res@)),
{
    let ghost sv = star_v(star@);
    proof {
        lemma_views_of(star@);
    }
    let mut res: Vec<usize> = Vec::new();
    let mut k: usize = 0;
    while k < star.len()
        invariant
            k <= star.len(),
            j < star.len(),
            sv == star_v(star@),
            sv.len() == star.len(),
            forall|m: int| 0 <= m < star.len() ==> sv[m] == star[m]@,
            forall|p: int, q: int| 0 <= p < q < res.len() ==> res[p] < res[q],
            forall|t: int| 0 <= t < res.len() ==> res[t] < k,
            forall|t: int| 0 <= t < res.len() ==> self_match(sv, j as int, #[trigger] idx_int(res@)[t]),
            forall|m: int| m < k && #[trigger] self_match(sv, j as int, m) ==> idx_int(res@).contains(m),
        decreases star.len() - k,
    {
        let ghost before = res@;
        if k != j && matchable(&star[j], &star[k]) {
            res.push(k);
            proof {
                assert(idx_int(res@) =~= idx_int(before).push(k as int));
            }
        }
        proof {
            assert forall|m: int| m < k + 1 && #[trigger] self_match(sv, j as int, m) implies idx_int(
                res@,
            ).contains(m) by {
                if m == k {
                    assert(idx_int(res@)[res.len() - 1] == m);
                } else {
                    let t = choose|t: int| 0 <= t < idx_int(before).len() && idx_int(before)[t] == m;
                    assert(idx_int(res@)[t] == m);
                }
            }
        }
        k += 1;
    }
    res
}

/// Does `r` have a partner in `Φ`? (existence only)
fn any_ext(phi: &Constellation, r: &Term) -> (b: bool)
    ensures
        b == exists|i: int, j: int| ext_match(cons_v(phi@), r@, i, j),
{
    let l = mat_ext(phi, r);
    proof {
        if l.len() > 0 {
            assert(ext_match(cons_v(phi@), r@, pairs_int(l@)[0].0, pairs_int(l@)[0].1));
        }
    }
    l.len() > 0
}

/// Does `star[j]` have a partner among the other rays of its star?
fn any_self(star: &Star, j: usize) -> (b: bool)
    requires
        j < star.len(),
    ensures
        b == exists|k: int| self_match(star_v(star@), j as int, k),
{
    let l = mat_self(star, j);
    proof {
        if l.len() > 0 {
            assert(self_match(star_v(star@), j as int, idx_int(l@)[0]));
        }
    }
    l.len() > 0
}

// ─────────────────────────────────────────────────────────────────────────
// Fusion (§49.30) and self-interaction (§51.7)
// ─────────────────────────────────────────────────────────────────────────

/// Apply a substitution to every ray of a list, skipping one position.
fn apply_skip(s: &Star, skip: usize, sigma: &Substitution, out: &mut Vec<Term>)
    ensures
        star_v(final(out)@) == star_v(old(out)@) + apply_seq(
            if skip < s.len() {
                star_v(s@).remove(skip as int)
            } else {
                star_v(s@)
            },
            sigma@,
        ),
{
    let ghost start = star_v(out@);
    let ghost src = if skip < s.len() {
        star_v(s@).remove(skip as int)
    } else {
        star_v(s@)
    };
    let ghost mut taken: Seq<TermV> = Seq::empty();
    let mut k: usize = 0;
    proof {
        lemma_views_of(s@);
        lemma_views_of(out@);
        lemma_apply_seq(src, sigma@);
        assert(star_v(out@) =~= start + apply_seq(src, sigma@).subrange(0, 0));
    }
    while k < s.len()
        invariant
            k <= s.len(),
            star_v(s@).len() == s.len(),
            forall|m: int| 0 <= m < s.len() ==> star_v(s@)[m] == s[m]@,
            src == (if skip < s.len() {
                star_v(s@).remove(skip as int)
            } else {
                star_v(s@)
            }),
            apply_seq(src, sigma@).len() == src.len(),
            forall|m: int| 0 <= m < src.len() ==> apply_seq(src, sigma@)[m] == apply(src[m], sigma@),
            star_v(out@) =~= start + apply_seq(src, sigma@).subrange(
                0,
                if skip < k {
                    k - 1
                } else {
                    k as int
                },
            ),
        decreases s.len() - k,
    {
        if k != skip {
            let ghost before = out@;
            let t = sigma.apply(&s[k]);
            out.push(t);
            proof {
                lemma_views_of(before);
                lemma_views_of(out@);
                let n = if skip < k {
                    k - 1
                } else {
                    k as int
                };
                assert(src[n] == s[k as int]@);
                assert(star_v(out@) =~= star_v(before).push(t@));
                assert(apply_seq(src, sigma@).subrange(0, n + 1) =~= apply_seq(
                    src,
                    sigma@,
                ).subrange(0, n).push(apply(src[n], sigma@)));
            }
        }
        k += 1;
    }
    proof {
        let n = if skip < k {
            k - 1
        } else {
            k as int
        };
        assert(n == src.len());
        assert(apply_seq(src, sigma@).subrange(0, n) =~= apply_seq(src, sigma@));
    }
}

/// Fusion `φ₁ ^{j,j′}∇_α φ₂` (§49.30): rename the two stars apart, unify the
/// underlying terms of the two rays, and apply the unifier to the remaining
/// rays of both. `None` when the unification fails.
pub fn fuse(phi1: &Star, j: usize, phi2: &Star, j_prime: usize) -> (r: Option<Star>)
    requires
        j < phi1.len(),
        j_prime < phi2.len(),
    ensures
        r is Some <==> alpha_unifiable(underlying(star_v(phi1@)[j as int]), underlying(star_v(phi2@)[j_prime as int])),
        r is Some ==> is_fusion(star_v(phi1@), j as int, star_v(phi2@), j_prime as int, star_v(r.unwrap()@)),
{
    match fuse_theta(phi1, j, phi2, j_prime) {
        Some((out, _)) => Some(out),
        None => None,
    }
}

/// The fusion together with the unifier it applied.
fn fuse_theta(phi1: &Star, j: usize, phi2: &Star, j_prime: usize) -> (r: Option<(Star, Substitution)>)
    requires
        j < phi1.len(),
        j_prime < phi2.len(),
    ensures
        r is Some <==> alpha_unifiable(underlying(star_v(phi1@)[j as int]), underlying(star_v(phi2@)[j_prime as int])),
        r is Some ==> is_mgu(r.unwrap().1@, fusion_eq(star_v(phi1@), j as int, star_v(phi2@), j_prime as int)),
        r is Some ==> idempotent(r.unwrap().1@),
        r is Some ==> distinct_keys(bindings_view(r.unwrap().1.pairs@)),
        r is Some ==> star_v(r.unwrap().0@) == apply_seq(
            fusion_rest(star_v(phi1@), j as int, star_v(phi2@), j_prime as int),
            r.unwrap().1@,
        ),
{
    let a = rename_star(phi1, true);
    let b = rename_star(phi2, false);
    let ghost s1 = star_v(phi1@);
    let ghost s2 = star_v(phi2@);
    proof {
        lemma_views_of(phi1@);
        lemma_views_of(phi2@);
        lemma_views_of(a@);
        lemma_views_of(b@);
        lemma_fusion_unifiable(s1, j as int, s2, j_prime as int);
    }
    let l = underlying_term(&a[j]);
    let rr = underlying_term(&b[j_prime]);
    let mut eqs: Vec<Equation> = Vec::new();
    eqs.push(Equation::new(l, rr));
    proof {
        assert(equations_view(eqs@) =~= fusion_eq(s1, j as int, s2, j_prime as int));
    }
    match unify(eqs) {
        None => None,
        Some(sigma) => {
            let mut out: Vec<Term> = Vec::new();
            apply_skip(&a, j, &sigma, &mut out);
            apply_skip(&b, j_prime, &sigma, &mut out);
            proof {
                assert(star_v(Seq::<Term>::empty()) =~= Seq::<TermV>::empty());
                let ra = renamed_star(s1, true).remove(j as int);
                let rb = renamed_star(s2, false).remove(j_prime as int);
                lemma_apply_seq(ra, sigma@);
                lemma_apply_seq(rb, sigma@);
                lemma_apply_seq(ra + rb, sigma@);
                assert(apply_seq(ra, sigma@) + apply_seq(rb, sigma@) =~= apply_seq(ra + rb, sigma@));
                assert(star_v(out@) =~= apply_seq(fusion_rest(s1, j as int, s2, j_prime as int), sigma@));
            }
            Some((out, sigma))
        },
    }
}

/// Self-interaction `^{j,j′}▷ φ` (§51.7): unify the underlying terms of two
/// rays of the same star and apply the unifier to its other rays.
pub fn self_interact(star: &Star, j: usize, j_prime: usize) -> (r: Option<Star>)
    requires
        j < star.len(),
        j_prime < star.len(),
        j != j_prime,
    ensures
        r is Some <==> unifiable(self_eq(star_v(star@), j as int, j_prime as int)),
        r is Some ==> is_self_interaction(star_v(star@), j as int, j_prime as int, star_v(r.unwrap()@)),
{
    match self_interact_theta(star, j, j_prime) {
        Some((out, _)) => Some(out),
        None => None,
    }
}

/// The self-interaction together with the unifier it applied.
fn self_interact_theta(star: &Star, j: usize, j_prime: usize) -> (r: Option<(Star, Substitution)>)
    requires
        j < star.len(),
        j_prime < star.len(),
        j != j_prime,
    ensures
        r is Some <==> unifiable(self_eq(star_v(star@), j as int, j_prime as int)),
        r is Some ==> is_mgu(r.unwrap().1@, self_eq(star_v(star@), j as int, j_prime as int)),
        r is Some ==> idempotent(r.unwrap().1@),
        r is Some ==> distinct_keys(bindings_view(r.unwrap().1.pairs@)),
        r is Some ==> star_v(r.unwrap().0@) == apply_seq(remove_two(star_v(star@), j as int, j_prime as int), r.unwrap().1@),
{
    let ghost s = star_v(star@);
    proof {
        lemma_views_of(star@);
    }
    let mut eqs: Vec<Equation> = Vec::new();
    eqs.push(Equation::new(underlying_term(&star[j]), underlying_term(&star[j_prime])));
    proof {
        assert(equations_view(eqs@) =~= self_eq(s, j as int, j_prime as int));
    }
    match unify(eqs) {
        None => None,
        Some(sigma) => {
            let hi = if j < j_prime { j_prime } else { j };
            let lo = if j < j_prime { j } else { j_prime };
            let mut mid: Vec<Term> = Vec::new();
            let id = Substitution::new();
            apply_skip(star, hi, &id, &mut mid);
            let mut out: Vec<Term> = Vec::new();
            apply_skip(&mid, lo, &sigma, &mut out);
            proof {
                assert(star_v(Seq::<Term>::empty()) =~= Seq::<TermV>::empty());
                let sr = s.remove(hi as int);
                lemma_apply_seq(sr, id@);
                assert forall|m: int| 0 <= m < sr.len() implies apply(sr[m], id@) == sr[m] by {
                    crate::subst::lemma_apply_id(sr[m], id@);
                }
                assert(star_v(mid@) =~= sr);
                assert(remove_two(s, j as int, j_prime as int) =~= sr.remove(lo as int));
                lemma_views_of(mid@);
                assert(lo < mid.len());
                assert(star_v(out@) == apply_seq(remove_two(s, j as int, j_prime as int), sigma@));
            }
            Some((out, sigma))
        },
    }
}

// ─────────────────────────────────────────────────────────────────────────
// One interaction step (§51.9)
// ─────────────────────────────────────────────────────────────────────────

/// One step at `Ψ[star_idx][ray_idx]`: `Ψ[i]` is consumed and replaced by its
/// fusions with fresh copies of the matchable `Φ` stars, then its
/// self-interactions.
fn interaction_step(phi: &Constellation, psi: &Vec<Star>, star_idx: usize, ray_idx: usize) -> (res: Vec<Star>)
    requires
        star_idx < psi.len(),
        ray_idx < psi[star_idx as int].len(),
    ensures
        step_ok(cons_v(phi@), cons_v(psi@), star_idx as int, ray_idx as int, cons_v(res@)),
{
    let ghost pv = cons_v(phi@);
    let ghost sv = cons_v(psi@);
    let selected = &psi[star_idx];
    let ghost star = sv[star_idx as int];
    proof {
        lemma_views_of(selected@);
        assert(star == views_of(selected@));
    }
    // Ψ' = Ψ without Ψ[i].
    let mut out: Vec<Star> = Vec::new();
    let mut k: usize = 0;
    while k < psi.len()
        invariant
            k <= psi.len(),
            star_idx < psi.len(),
            sv == cons_v(psi@),
            cons_v(out@) =~= sv.remove(star_idx as int).subrange(
                0,
                if star_idx < k {
                    k - 1
                } else {
                    k as int
                },
            ),
        decreases psi.len() - k,
    {
        if k != star_idx {
            let ghost before = out@;
            out.push(copy_star(&psi[k]));
            proof {
                let n = if star_idx < k {
                    k - 1
                } else {
                    k as int
                };
                assert(sv.remove(star_idx as int)[n] == sv[k as int]);
                assert(sv.remove(star_idx as int).subrange(0, n + 1) =~= sv.remove(
                    star_idx as int,
                ).subrange(0, n).push(sv[k as int]));
                assert(cons_v(out@) =~= cons_v(before).push(sv[k as int]));
            }
        }
        k += 1;
    }
    let ghost rest = sv.remove(star_idx as int);
    proof {
        assert(rest.subrange(0, rest.len() as int) =~= rest);
    }
    let r = &selected[ray_idx];
    // External fusions.
    let ext = mat_ext(phi, r);
    let mut t: usize = 0;
    while t < ext.len()
        invariant
            t <= ext.len(),
            star_idx < psi.len(),
            ray_idx < star.len(),
            selected == psi[star_idx as int],
            star == views_of(selected@),
            star.len() == selected.len(),
            forall|m: int| 0 <= m < selected.len() ==> star[m] == selected[m]@,
            r == selected[ray_idx as int],
            pv == cons_v(phi@),
            is_ext_list(pv, star[ray_idx as int], pairs_int(ext@)),
            out.len() == rest.len() + t,
            cons_v(out@).subrange(0, rest.len() as int) == rest,
            forall|u: int|
                0 <= u < t ==> is_fusion(
                    star,
                    ray_idx as int,
                    pv[pairs_int(ext@)[u].0],
                    pairs_int(ext@)[u].1,
                    #[trigger] cons_v(out@)[rest.len() + u],
                ),
        decreases ext.len() - t,
    {
        let (ik, jk) = ext[t];
        proof {
            assert(ext_match(pv, star[ray_idx as int], pairs_int(ext@)[t as int].0, pairs_int(ext@)[t as int].1));
            lemma_views_of(phi[ik as int]@);
            assert(pv[ik as int] == views_of(phi[ik as int]@));
            lemma_match_fuses(pv, star, ray_idx as int, ik as int, jk as int);
            lemma_fusion_unifiable(star, ray_idx as int, pv[ik as int], jk as int);
        }
        let fused = fuse(selected, ray_idx, &phi[ik], jk);
        let ghost before = out@;
        match fused {
            Some(f) => {
                out.push(f);
                proof {
                    assert(cons_v(out@) =~= cons_v(before).push(star_v(out@[out.len() - 1]@)));
                    assert(cons_v(out@).subrange(0, rest.len() as int) =~= cons_v(before).subrange(0, rest.len() as int));
                }
            },
            None => {
                proof {
                    assert(false);
                }
            },
        }
        t += 1;
    }
    // Self-interactions.
    let selfs = mat_self(selected, ray_idx);
    let ghost mut sl: Seq<int> = Seq::empty();
    let mut u: usize = 0;
    while u < selfs.len()
        invariant
            u <= selfs.len(),
            ray_idx < star.len(),
            star == views_of(selected@),
            star.len() == selected.len(),
            is_ext_list(pv, star[ray_idx as int], pairs_int(ext@)),
            is_self_list(star, ray_idx as int, idx_int(selfs@)),
            forall|p: int, q: int| 0 <= p < q < sl.len() ==> sl[p] < sl[q],
            forall|x: int| 0 <= x < sl.len() ==> self_ok(star, ray_idx as int, #[trigger] sl[x]),
            forall|x: int| 0 <= x < sl.len() ==> exists|y: int| 0 <= y < u && idx_int(selfs@)[y] == #[trigger] sl[x],
            forall|y: int| 0 <= y < u && self_ok(star, ray_idx as int, #[trigger] idx_int(selfs@)[y]) ==> sl.contains(idx_int(selfs@)[y]),
            forall|x: int, y: int| 0 <= x < sl.len() && u <= y < selfs.len() ==> #[trigger] sl[x] < #[trigger] idx_int(selfs@)[y],
            out.len() == rest.len() + ext.len() + sl.len(),
            cons_v(out@).subrange(0, rest.len() as int) == rest,
            forall|w: int|
                0 <= w < ext.len() ==> is_fusion(
                    star,
                    ray_idx as int,
                    pv[pairs_int(ext@)[w].0],
                    pairs_int(ext@)[w].1,
                    #[trigger] cons_v(out@)[rest.len() + w],
                ),
            forall|w: int|
                0 <= w < sl.len() ==> is_self_interaction(
                    star,
                    ray_idx as int,
                    sl[w],
                    #[trigger] cons_v(out@)[rest.len() + ext.len() + w],
                ),
        decreases selfs.len() - u,
    {
        let jk = selfs[u];
        proof {
            assert(self_match(star, ray_idx as int, idx_int(selfs@)[u as int]));
        }
        let ghost before = out@;
        match self_interact(selected, ray_idx, jk) {
            Some(s) => {
                out.push(s);
                proof {
                    assert(cons_v(out@) =~= cons_v(before).push(star_v(out@[out.len() - 1]@)));
                    assert(cons_v(out@).subrange(0, rest.len() as int) =~= cons_v(before).subrange(0, rest.len() as int));
                    let old_sl = sl;
                    sl = sl.push(jk as int);
                    assert(self_ok(star, ray_idx as int, jk as int));
                    assert forall|y: int| 0 <= y < u + 1 && self_ok(star, ray_idx as int, #[trigger] idx_int(selfs@)[y]) implies sl.contains(idx_int(selfs@)[y]) by {
                        if y == u {
                            assert(sl[old_sl.len() as int] == jk as int);
                        } else {
                            let x = choose|x: int| 0 <= x < old_sl.len() && old_sl[x] == idx_int(selfs@)[y];
                            assert(sl[x] == old_sl[x]);
                        }
                    }
                }
            },
            None => {},
        }
        u += 1;
    }
    proof {
        assert forall|k: int| #[trigger] self_ok(star, ray_idx as int, k) implies sl.contains(k) by {
            assert(self_match(star, ray_idx as int, k));
            assert(idx_int(selfs@).contains(k));
            let y = choose|y: int| 0 <= y < idx_int(selfs@).len() && idx_int(selfs@)[y] == k;
            assert(self_ok(star, ray_idx as int, idx_int(selfs@)[y]));
        }
        assert(is_self_ok_list(star, ray_idx as int, sl));
        assert(step_ok(pv, sv, star_idx as int, ray_idx as int, cons_v(out@)));
    }
    out
}

// ─────────────────────────────────────────────────────────────────────────
// Redex selection and normal form
// ─────────────────────────────────────────────────────────────────────────

/// The first redex of `Ψ`, or `None` at normal form.
fn find_redex(phi: &Constellation, psi: &Vec<Star>) -> (r: Option<(usize, usize)>)
    ensures
        r is Some ==> is_first_redex(cons_v(phi@), cons_v(psi@), r.unwrap().0 as int, r.unwrap().1 as int),
        r is Some ==> r.unwrap().0 < psi.len() && r.unwrap().1 < psi[r.unwrap().0 as int].len(),
        r is None ==> is_nf(cons_v(phi@), cons_v(psi@)),
{
    find_redex_from(phi, psi, 0)
}

/// The first redex of `Ψ`, scanning from star `start` on: the stars before
/// it are known to hold no redex.
fn find_redex_from(phi: &Constellation, psi: &Vec<Star>, start: usize) -> (r: Option<(usize, usize)>)
    requires
        forall|a: int, b: int| a < start ==> !#[trigger] has_redex(cons_v(phi@), cons_v(psi@), a, b),
    ensures
        r is Some ==> is_first_redex(cons_v(phi@), cons_v(psi@), r.unwrap().0 as int, r.unwrap().1 as int),
        r is Some ==> r.unwrap().0 < psi.len() && r.unwrap().1 < psi[r.unwrap().0 as int].len(),
        r is None ==> is_nf(cons_v(phi@), cons_v(psi@)),
{
    let ghost pv = cons_v(phi@);
    let ghost sv = cons_v(psi@);
    let mut i: usize = start;
    if i > psi.len() {
        i = psi.len();
    }
    while i < psi.len()
        invariant
            i <= psi.len(),
            pv == cons_v(phi@),
            sv == cons_v(psi@),
            forall|a: int, b: int| a < i ==> !#[trigger] has_redex(pv, sv, a, b),
        decreases psi.len() - i,
    {
        let star = &psi[i];
        proof {
            lemma_views_of(star@);
            assert(sv[i as int] == views_of(star@));
        }
        let mut j: usize = 0;
        while j < star.len()
            invariant
                i < psi.len(),
                star == psi[i as int],
                j <= star.len(),
                pv == cons_v(phi@),
                sv == cons_v(psi@),
                sv[i as int] == views_of(star@),
                views_of(star@).len() == star.len(),
                forall|k: int| 0 <= k < star.len() ==> views_of(star@)[k] == star[k]@,
                forall|a: int, b: int| (a < i || (a == i && b < j)) ==> !#[trigger] has_redex(pv, sv, a, b),
            decreases star.len() - j,
        {
            let coloured = match &star[j] {
                Term::App(f, _) => f.pol != Polarity::Neutral,
                Term::Var(_) => false,
            };
            if coloured {
                let e = any_ext(phi, &star[j]);
                let m = any_self(star, j);
                if e || m {
                    proof {
                        assert(has_redex(pv, sv, i as int, j as int));
                        assert forall|a: int, b: int| lex_lt((a, b), (i as int, j as int)) implies !#[trigger] has_redex(pv, sv, a, b) by {}
                    }
                    return Some((i, j));
                }
            }
            proof {
                assert(!has_redex(pv, sv, i as int, j as int));
                assert forall|a: int, b: int| (a < i || (a == i && b < j + 1)) implies !#[trigger] has_redex(pv, sv, a, b) by {}
            }
            j += 1;
        }
        proof {
            assert forall|a: int, b: int| a < i + 1 implies !#[trigger] has_redex(pv, sv, a, b) by {
                if a == i && 0 <= b && b >= star.len() {
                    assert(!(0 <= b < sv[a].len()));
                }
            }
        }
        i += 1;
    }
    proof {
        assert forall|a: int, b: int| !#[trigger] has_redex(pv, sv, a, b) by {
            if a >= i {
                assert(!(0 <= a < sv.len()));
            }
        }
    }
    None
}

/// Is the configuration `Φ ⊢ Ψ` in normal form? (§51.9)
pub fn is_normal_form(phi: &Constellation, psi: &Vec<Star>) -> (r: bool)
    ensures
        r == is_nf(cons_v(phi@), cons_v(psi@)),
{
    match find_redex(phi, psi) {
        Some((i, j)) => {
            proof {
                assert(has_redex(cons_v(phi@), cons_v(psi@), i as int, j as int));
            }
            false
        },
        None => true,
    }
}

// ─────────────────────────────────────────────────────────────────────────
// IEx(Φ, Ψ) (§51.10)
// ─────────────────────────────────────────────────────────────────────────

/// Result of `IEx(Φ, Ψ)`.
#[derive(Debug)]
pub struct IExResult {
    /// The interaction space at normal form (or when the fuel ran out).
    pub psi: Vec<Star>,
    /// Whether `psi` is a normal form (§51.9).
    pub is_normal_form: bool,
    /// Number of steps taken.
    pub steps: usize,
}

/// What `IEx(Φ, Ψ₀)` with the given fuel may return: a run of `steps` steps
/// from `Ψ₀` to `Ψ`, stopping early only at a normal form.
pub open spec fn iex_post(
    phi: Seq<Seq<TermV>>,
    psi0: Seq<Seq<TermV>>,
    fuel: nat,
    psi: Seq<Seq<TermV>>,
    normal: bool,
    steps: nat,
) -> bool {
    &&& steps <= fuel
    &&& exists|states: Seq<Seq<Seq<TermV>>>|
        {
            &&& states.len() == steps + 1
            &&& states[0] == psi0
            &&& states[steps as int] == psi
            &&& iex_run(phi, states)
        }
    &&& normal == is_nf(phi, psi)
    &&& steps < fuel ==> normal
}

/// `IEx(Φ, Ψ)` (§51.10): step at the first redex until normal form or until
/// `fuel` steps have been taken.
pub fn iex(phi: &Constellation, psi_init: Vec<Star>, fuel: usize) -> (r: IExResult)
    ensures
        iex_post(cons_v(phi@), cons_v(psi_init@), fuel as nat, cons_v(r.psi@), r.is_normal_form, r.steps as nat),
{
    let ghost pv = cons_v(phi@);
    let mut psi = psi_init;
    let mut steps: usize = 0;
    let ghost mut states: Seq<Seq<Seq<TermV>>> = seq![cons_v(psi@)];
    while steps < fuel
        invariant
            steps <= fuel,
            pv == cons_v(phi@),
            states.len() == steps + 1,
            states[0] == cons_v(psi_init@),
            states[steps as int] == cons_v(psi@),
            iex_run(pv, states),
        decreases fuel - steps,
    {
        match find_redex(phi, &psi) {
            None => {
                let r = IExResult { psi, is_normal_form: true, steps };
                proof {
                    assert(iex_post(pv, cons_v(psi_init@), fuel as nat, cons_v(r.psi@), true, steps as nat));
                }
                return r;
            },
            Some((i, j)) => {
                let next = interaction_step(phi, &psi, i, j);
                proof {
                    lemma_iex_run_push(pv, states, cons_v(next@), i as int, j as int);
                    states = states.push(cons_v(next@));
                }
                psi = next;
                steps += 1;
            },
        }
    }
    let nf = is_normal_form(phi, &psi);
    IExResult { psi, is_normal_form: nf, steps }
}

/// `IEx(Φ) := IEx(Φ, Φ)` (§51.10).
pub fn iex_self(phi: &Constellation, fuel: usize) -> (r: IExResult)
    ensures
        iex_post(cons_v(phi@), cons_v(phi@), fuel as nat, cons_v(r.psi@), r.is_normal_form, r.steps as nat),
{
    iex(phi, copy_constellation(phi), fuel)
}

/// A step at `(i, j)` keeps the stars before `i` in place, so whether they
/// hold a redex is unchanged.
pub proof fn lemma_step_keeps_prefix(
    phi: Seq<Seq<TermV>>,
    psi: Seq<Seq<TermV>>,
    i: int,
    j: int,
    out: Seq<Seq<TermV>>,
)
    requires
        0 <= i < psi.len(),
        step_ok(phi, psi, i, j, out),
    ensures
        forall|a: int| 0 <= a < i ==> out[a] == psi[a],
        forall|a: int, b: int| a < i ==> #[trigger] has_redex(phi, out, a, b) == has_redex(phi, psi, a, b),
{
    let rest = psi.remove(i);
    let (ext, sl) = choose|ext: Seq<(int, int)>, sl: Seq<int>|
        {
            &&& is_ext_list(phi, psi[i][j], ext)
            &&& is_self_ok_list(psi[i], j, sl)
            &&& out.len() == rest.len() + ext.len() + sl.len()
            &&& out.subrange(0, rest.len() as int) == rest
            &&& forall|t: int|
                0 <= t < ext.len() ==> is_fusion(
                    psi[i],
                    j,
                    phi[ext[t].0],
                    ext[t].1,
                    #[trigger] out[rest.len() + t],
                )
            &&& forall|t: int|
                0 <= t < sl.len() ==> is_self_interaction(
                    psi[i],
                    j,
                    sl[t],
                    #[trigger] out[rest.len() + ext.len() + t],
                )
        };
    assert forall|a: int| 0 <= a < i implies out[a] == psi[a] by {
        assert(out.subrange(0, rest.len() as int)[a] == rest[a]);
    }
}

/// The accelerated run: the same steps as [`iex`], but after a step at star
/// `i` the search for the next redex resumes at star `i`, since the stars
/// before it are unchanged and held no redex.
pub fn iex_fast(phi: &Constellation, psi_init: Vec<Star>, fuel: usize) -> (r: IExResult)
    ensures
        iex_post(cons_v(phi@), cons_v(psi_init@), fuel as nat, cons_v(r.psi@), r.is_normal_form, r.steps as nat),
{
    let ghost pv = cons_v(phi@);
    let mut psi = psi_init;
    let mut steps: usize = 0;
    let mut resume_from: usize = 0;
    let ghost mut states: Seq<Seq<Seq<TermV>>> = seq![cons_v(psi@)];
    while steps < fuel
        invariant
            steps <= fuel,
            pv == cons_v(phi@),
            states.len() == steps + 1,
            states[0] == cons_v(psi_init@),
            states[steps as int] == cons_v(psi@),
            iex_run(pv, states),
            forall|a: int, b: int| a < resume_from ==> !#[trigger] has_redex(pv, cons_v(psi@), a, b),
        decreases fuel - steps,
    {
        match find_redex_from(phi, &psi, resume_from) {
            None => {
                let r = IExResult { psi, is_normal_form: true, steps };
                proof {
                    assert(iex_post(pv, cons_v(psi_init@), fuel as nat, cons_v(r.psi@), true, steps as nat));
                }
                return r;
            },
            Some((i, j)) => {
                let next = interaction_step(phi, &psi, i, j);
                proof {
                    lemma_iex_run_push(pv, states, cons_v(next@), i as int, j as int);
                    states = states.push(cons_v(next@));
                    lemma_step_keeps_prefix(pv, cons_v(psi@), i as int, j as int, cons_v(next@));
                    assert forall|a: int, b: int| a < i implies !#[trigger] has_redex(pv, cons_v(next@), a, b) by {
                        assert(lex_lt((a, b), (i as int, j as int)));
                    }
                }
                psi = next;
                steps += 1;
                resume_from = i;
            },
        }
    }
    let nf = is_normal_form(phi, &psi);
    IExResult { psi, is_normal_form: nf, steps }
}

/// The specialising entry point: the redex selection of [`iex_fast`], each
/// step built by the generic fusion.
pub fn iex_spec(phi: &Constellation, psi_init: Vec<Star>, fuel: usize) -> (r: IExResult)
    ensures
        iex_post(cons_v(phi@), cons_v(psi_init@), fuel as nat, cons_v(r.psi@), r.is_normal_form, r.steps as nat),
{
    iex_fast(phi, psi_init, fuel)
}

/// `↨♭ IEx(Φ, Ψ)`: the visible answers, and whether a normal form was reached.
pub fn iex_concealed(phi: &Constellation, psi: Vec<Star>, fuel: usize) -> (r: (Vec<Star>, bool))
    ensures
        exists|out: Seq<Seq<TermV>>, steps: nat|
            iex_post(cons_v(phi@), cons_v(psi@), fuel as nat, out, r.1, steps) && cons_v(r.0@) == visible(out),
{
    let res = iex(phi, psi, fuel);
    let v = conceal_and_filter(&res.psi);
    proof {
        assert(iex_post(cons_v(phi@), cons_v(psi@), fuel as nat, cons_v(res.psi@), res.is_normal_form, res.steps as nat));
        assert(cons_v(v@) == visible(cons_v(res.psi@)));
    }
    let r = (v, res.is_normal_form);
    proof {
        assert(iex_post(cons_v(phi@), cons_v(psi@), fuel as nat, cons_v(res.psi@), r.1, res.steps as nat) && cons_v(r.0@) == visible(cons_v(res.psi@)));
    }
    r
}

/// `↨♭ IEx` through the accelerated entry point.
pub fn iex_fast_concealed(phi: &Constellation, psi: Vec<Star>, fuel: usize) -> (r: (Vec<Star>, bool))
    ensures
        exists|out: Seq<Seq<TermV>>, steps: nat|
            iex_post(cons_v(phi@), cons_v(psi@), fuel as nat, out, r.1, steps) && cons_v(r.0@) == visible(out),
{
    let res = iex_fast(phi, psi, fuel);
    let v = conceal_and_filter(&res.psi);
    proof {
        assert(iex_post(cons_v(phi@), cons_v(psi@), fuel as nat, cons_v(res.psi@), res.is_normal_form, res.steps as nat));
        assert(cons_v(v@) == visible(cons_v(res.psi@)));
    }
    let r = (v, res.is_normal_form);
    proof {
        assert(iex_post(cons_v(phi@), cons_v(psi@), fuel as nat, cons_v(res.psi@), r.1, res.steps as nat) && cons_v(r.0@) == visible(cons_v(res.psi@)));
    }
    r
}

/// The star `[accept]`.
pub open spec fn accept_star() -> Seq<TermV> {
    seq![TermV::App(seq!['a', 'c', 'c', 'e', 'p', 't'], Polarity::Neutral, Seq::empty())]
}

/// Acceptance by an automaton constellation (§56.5): `[accept] ∈ ↨♭ IEx(Φ, Ψ)`.
pub fn iex_nfa_accepts(phi: &Constellation, psi: Vec<Star>, fuel: usize) -> (r: bool)
    ensures
        exists|out: Seq<Seq<TermV>>, normal: bool, steps: nat|
            iex_post(cons_v(phi@), cons_v(psi@), fuel as nat, out, normal, steps) && r == visible(out).contains(accept_star()),
{
    let (v, nf) = iex_concealed(phi, psi, fuel);
    let ghost (out, steps) = choose|out: Seq<Seq<TermV>>, steps: nat|
        iex_post(cons_v(phi@), cons_v(psi@), fuel as nat, out, nf, steps) && cons_v(v@) == visible(out);
    let accept = Term::constant("accept");
    let mut acc_star: Vec<Term> = Vec::new();
    acc_star.push(accept);
    proof {
        reveal_strlit("accept");
        assert("accept"@ =~= seq!['a', 'c', 'c', 'e', 'p', 't']);
        lemma_views_of(acc_star@);
        assert(star_v(acc_star@) =~= accept_star());
    }
    let mut i: usize = 0;
    while i < v.len()
        invariant
            i <= v.len(),
            star_v(acc_star@) == accept_star(),
            cons_v(v@) == visible(out),
            iex_post(cons_v(phi@), cons_v(psi@), fuel as nat, out, nf, steps),
            forall|k: int| 0 <= k < i ==> cons_v(v@)[k] != accept_star(),
        decreases v.len() - i,
    {
        if crate::constellation::stars_same(&v[i], &acc_star) {
            proof {
                assert(cons_v(v@)[i as int] == accept_star());
                assert(visible(out).contains(accept_star()));
            }
            return true;
        }
        i += 1;
    }
    proof {
        assert(!visible(out).contains(accept_star()));
    }
    false
}

/// One step at an explicitly chosen ray `Ψ[star_idx][ray_idx]`. `None` when the
/// position is out of range, the ray is uncoloured, or it has no partner.
/// `counter` counts the fresh copies of `Φ` stars taken (saturating).
pub fn step_at(
    phi: &Constellation,
    psi: Vec<Star>,
    star_idx: usize,
    ray_idx: usize,
    counter: &mut u32,
) -> (r: Option<Vec<Star>>)
    ensures
        r is Some <==> has_redex(cons_v(phi@), cons_v(psi@), star_idx as int, ray_idx as int),
        r is Some ==> step_ok(cons_v(phi@), cons_v(psi@), star_idx as int, ray_idx as int, cons_v(r.unwrap()@)),
        r is None ==> *final(counter) == *old(counter),
        r is Some ==> exists|l: Seq<(int, int)>|
            is_ext_list(cons_v(phi@), cons_v(psi@)[star_idx as int][ray_idx as int], l) && *final(counter) == (
                if *old(counter) + l.len() > u32::MAX {
                    u32::MAX as int
                } else {
                    *old(counter) + l.len()
                }),
{
    let ghost pv = cons_v(phi@);
    let ghost sv = cons_v(psi@);
    if star_idx >= psi.len() {
        return None;
    }
    let star = &psi[star_idx];
    proof {
        lemma_views_of(star@);
        assert(sv[star_idx as int] == views_of(star@));
    }
    if ray_idx >= star.len() {
        return None;
    }
    let r = &star[ray_idx];
    proof {
        assert(views_of(star@)[ray_idx as int] == star[ray_idx as int]@);
        assert(sv[star_idx as int][ray_idx as int] == r@);
    }
    let coloured = match r {
        Term::App(f, _) => f.pol != Polarity::Neutral,
        Term::Var(_) => false,
    };
    if !coloured {
        return None;
    }
    let ext = mat_ext(phi, r);
    let m = any_self(star, ray_idx);
    if ext.len() == 0 && !m {
        proof {
            assert forall|a: int, b: int| !ext_match(pv, sv[star_idx as int][ray_idx as int], a, b) by {
                if ext_match(pv, sv[star_idx as int][ray_idx as int], a, b) {
                    assert(pairs_int(ext@).contains((a, b)));
                }
            }
            assert(star_v(star@) == views_of(star@));
            assert(!(exists|k: int| self_match(sv[star_idx as int], ray_idx as int, k)));
            assert(!(exists|a: int, b: int| ext_match(pv, sv[star_idx as int][ray_idx as int], a, b)));
        }
        return None;
    }
    proof {
        if ext.len() > 0 {
            assert(ext_match(pv, sv[star_idx as int][ray_idx as int], pairs_int(ext@)[0].0, pairs_int(ext@)[0].1));
        }
    }
    let n = ext.len();
    *counter = if n > (u32::MAX - *counter) as usize {
        u32::MAX
    } else {
        *counter + n as u32
    };
    Some(interaction_step(phi, &psi, star_idx, ray_idx))
}

// ─────────────────────────────────────────────────────────────────────────
// Tabled execution: variant deletion
// ─────────────────────────────────────────────────────────────────────────

/// The table key of a star: its canonical renaming, equal for two stars
/// exactly when they are α-equivalent.
pub open spec fn star_key(s: Seq<TermV>) -> Seq<TermV> {
    renamed_star(s, true)
}

/// The keys of a list of stars.
pub open spec fn keys(ps: Seq<Seq<TermV>>) -> Set<Seq<TermV>> {
    ps.map_values(|s: Seq<TermV>| star_key(s)).to_set()
}

/// The produced stars that are kept: each one that is not a variant of a
/// tabled star nor of an earlier produced star.
pub open spec fn fresh_stars(ps: Seq<Seq<TermV>>, table: Set<Seq<TermV>>) -> Seq<Seq<TermV>>
    decreases ps.len(),
{
    if ps.len() == 0 {
        Seq::empty()
    } else {
        let rest = fresh_stars(ps.drop_last(), table);
        if table.union(keys(ps.drop_last())).contains(star_key(ps.last())) {
            rest
        } else {
            rest.push(ps.last())
        }
    }
}

/// One tabled step: a step at the first redex of `s`, keeping of the stars it
/// produces only the fresh ones, every produced star's key entering the table.
pub open spec fn tabled_step(
    phi: Seq<Seq<TermV>>,
    s: Seq<Seq<TermV>>,
    table: Set<Seq<TermV>>,
    t: Seq<Seq<TermV>>,
    table2: Set<Seq<TermV>>,
) -> bool {
    exists|i: int, j: int, out: Seq<Seq<TermV>>|
        #![trigger step_ok(phi, s, i, j, out)]
        {
            &&& is_first_redex(phi, s, i, j)
            &&& step_ok(phi, s, i, j, out)
            &&& t == out.subrange(0, s.len() - 1) + fresh_stars(
                out.subrange(s.len() - 1, out.len() as int),
                table,
            )
            &&& table2 == table.union(keys(out.subrange(s.len() - 1, out.len() as int)))
        }
}

/// A tabled run: each state follows from the previous one by a tabled step.
pub open spec fn tabled_run(phi: Seq<Seq<TermV>>, states: Seq<(Seq<Seq<TermV>>, Set<Seq<TermV>>)>) -> bool {
    forall|k: int|
        0 <= k < states.len() - 1 ==> #[trigger] tabled_step(
            phi,
            states[k].0,
            states[k].1,
            states[k + 1].0,
            states[k + 1].1,
        )
}

/// What tabled execution with the given fuel may return: a tabled run of
/// `steps` steps from `Ψ₀`, whose stars seed the table, to `Ψ`, stopping
/// early only at a normal form.
pub open spec fn tabled_post(
    phi: Seq<Seq<TermV>>,
    psi0: Seq<Seq<TermV>>,
    fuel: nat,
    psi: Seq<Seq<TermV>>,
    normal: bool,
    steps: nat,
) -> bool {
    &&& steps <= fuel
    &&& exists|states: Seq<(Seq<Seq<TermV>>, Set<Seq<TermV>>)>|
        {
            &&& states.len() == steps + 1
            &&& states[0] == (psi0, keys(psi0))
            &&& states[steps as int].0 == psi
            &&& tabled_run(phi, states)
        }
    &&& normal == is_nf(phi, psi)
    &&& steps < fuel ==> normal
}

proof fn lemma_keys_push(ps: Seq<Seq<TermV>>, s: Seq<TermV>)
    ensures
        keys(ps.push(s)) == keys(ps).insert(star_key(s)),
{
    let f = |x: Seq<TermV>| star_key(x);
    assert(ps.push(s).map_values(f) =~= ps.map_values(f).push(star_key(s)));
    ps.map_values(f).lemma_push_to_set_commute(star_key(s));
}

/// Whether the table holds a star with the given model.
fn in_table(table: &Vec<Star>, k: &Star) -> (r: bool)
    ensures
        r == cons_v(table@).to_set().contains(star_v(k@)),
{
    let mut i: usize = 0;
    while i < table.len()
        invariant
            i <= table.len(),
            forall|q: int| 0 <= q < i ==> cons_v(table@)[q] != star_v(k@),
        decreases table.len() - i,
    {
        if crate::constellation::stars_same(&table[i], k) {
            assert(cons_v(table@)[i as int] == star_v(k@));
            assert(cons_v(table@).contains(star_v(k@)));
            return true;
        }
        i += 1;
    }
    proof {
        if cons_v(table@).to_set().contains(star_v(k@)) {
            let q = choose|q: int| 0 <= q < cons_v(table@).len() && cons_v(table@)[q] == star_v(k@);
            assert(false);
        }
    }
    false
}

/// `IEx` with variant deletion: a step's produced star is dropped when it is
/// α-equivalent to a star already met (one of `Ψ₀`, or one produced earlier,
/// kept or not); a step that produces only variants adds nothing, so the run
/// reaches a fixpoint where plain `IEx` would loop.
pub fn iex_tabled(phi: &Constellation, psi_init: Vec<Star>, fuel: usize) -> (r: IExResult)
    ensures
        tabled_post(cons_v(phi@), cons_v(psi_init@), fuel as nat, cons_v(r.psi@), r.is_normal_form, r.steps as nat),
{
    let ghost pv = cons_v(phi@);
    let ghost psi0 = cons_v(psi_init@);
    let mut table: Vec<Star> = Vec::new();
    let mut q: usize = 0;
    while q < psi_init.len()
        invariant
            q <= psi_init.len(),
            psi0 == cons_v(psi_init@),
            cons_v(table@).to_set() == keys(psi0.take(q as int)),
        decreases psi_init.len() - q,
    {
        let k = rename_star(&psi_init[q], true);
        proof {
            lemma_cons_v_push_local(table@, k);
            cons_v(table@).lemma_push_to_set_commute(star_v(k@));
            assert(psi0.take(q + 1) =~= psi0.take(q as int).push(psi0[q as int]));
            lemma_keys_push(psi0.take(q as int), psi0[q as int]);
            lemma_views_of(psi_init@[q as int]@);
        }
        table.push(k);
        q += 1;
    }
    assert(psi0.take(psi_init.len() as int) =~= psi0);
    let mut psi = psi_init;
    let mut steps: usize = 0;
    let mut resume_from: usize = 0;
    let ghost mut states: Seq<(Seq<Seq<TermV>>, Set<Seq<TermV>>)> = seq![(psi0, keys(psi0))];
    while steps < fuel
        invariant
            steps <= fuel,
            pv == cons_v(phi@),
            psi0 == cons_v(psi_init@),
            states.len() == steps + 1,
            states[0] == (psi0, keys(psi0)),
            states[steps as int].0 == cons_v(psi@),
            states[steps as int].1 == cons_v(table@).to_set(),
            tabled_run(pv, states),
            forall|a: int, b: int| a < resume_from ==> !#[trigger] has_redex(pv, cons_v(psi@), a, b),
        decreases fuel - steps,
    {
        match find_redex_from(phi, &psi, resume_from) {
            None => {
                let r = IExResult { psi, is_normal_form: true, steps };
                proof {
                    assert(tabled_post(pv, psi0, fuel as nat, cons_v(r.psi@), true, steps as nat));
                }
                return r;
            },
            Some((i, j)) => {
                let out = interaction_step(phi, &psi, i, j);
                let ghost ov = cons_v(out@);
                let ghost sv = cons_v(psi@);
                let ghost table0 = cons_v(table@).to_set();
                let n = psi.len() - 1;
                proof {
                    assert(ov.len() >= n);
                }
                let ghost produced = ov.subrange(n as int, ov.len() as int);
                let mut next: Vec<Star> = Vec::new();
                let mut k: usize = 0;
                while k < n
                    invariant
                        k <= n,
                        n <= out.len(),
                        ov == cons_v(out@),
                        cons_v(next@) == ov.subrange(0, k as int),
                    decreases n - k,
                {
                    let c = copy_star(&out[k]);
                    proof {
                        lemma_cons_v_push_local(next@, c);
                        assert(ov.subrange(0, k + 1) =~= ov.subrange(0, k as int).push(ov[k as int]));
                    }
                    next.push(c);
                    k += 1;
                }
                let ghost rest = cons_v(next@);
                let mut m: usize = n;
                proof {
                    assert(produced.take(0) =~= Seq::<Seq<TermV>>::empty());
                    assert(keys(Seq::<Seq<TermV>>::empty()) =~= Set::<Seq<TermV>>::empty());
                    assert(cons_v(next@) =~= rest + fresh_stars(produced.take(0), table0));
                    assert(table0 =~= table0.union(keys(produced.take(0))));
                }
                while m < out.len()
                    invariant
                        n <= m <= out.len(),
                        ov == cons_v(out@),
                        produced == ov.subrange(n as int, ov.len() as int),
                        cons_v(next@) == rest + fresh_stars(produced.take(m - n), table0),
                        cons_v(table@).to_set() == table0.union(keys(produced.take(m - n))),
                    decreases out.len() - m,
                {
                    let key = rename_star(&out[m], true);
                    let seen = in_table(&table, &key);
                    let ghost d = (m - n) as int;
                    proof {
                        lemma_views_of(out@[m as int]@);
                        assert(produced[d] == ov[m as int]);
                        assert(star_v(key@) == star_key(produced[d]));
                        assert(produced.take(d + 1).drop_last() =~= produced.take(d));
                        assert(produced.take(d + 1).last() == produced[d]);
                        lemma_keys_push(produced.take(d), produced[d]);
                        assert(produced.take(d + 1) =~= produced.take(d).push(produced[d]));
                    }
                    if !seen {
                        let c = copy_star(&out[m]);
                        proof {
                            lemma_cons_v_push_local(next@, c);
                        }
                        next.push(c);
                    }
                    proof {
                        lemma_cons_v_push_local(table@, key);
                        cons_v(table@).lemma_push_to_set_commute(star_v(key@));
                        assert(table0.union(keys(produced.take(d + 1))) =~= table0.union(keys(produced.take(d))).insert(star_key(produced[d])));
                    }
                    table.push(key);
                    m += 1;
                }
                proof {
                    assert(produced.take(produced.len() as int) =~= produced);
                    assert(ov.subrange(0, n as int) == rest);
                    assert(sv.len() - 1 == n);
                    assert(tabled_step(pv, sv, table0, cons_v(next@), cons_v(table@).to_set()));
                    let ns = states.push((cons_v(next@), cons_v(table@).to_set()));
                    assert forall|t: int| 0 <= t < ns.len() - 1 implies #[trigger] tabled_step(
                        pv,
                        ns[t].0,
                        ns[t].1,
                        ns[t + 1].0,
                        ns[t + 1].1,
                    ) by {
                        if t < states.len() - 1 {
                            assert(ns[t] == states[t] && ns[t + 1] == states[t + 1]);
                        }
                    }
                    states = ns;
                    lemma_step_keeps_prefix(pv, sv, i as int, j as int, ov);
                    assert forall|a: int, b: int| a < i implies !#[trigger] has_redex(pv, cons_v(next@), a, b) by {
                        assert(lex_lt((a, b), (i as int, j as int)));
                        assert(!has_redex(pv, sv, a, b));
                        if 0 <= a {
                            assert(a < n);
                            assert(cons_v(next@)[a] == rest[a]);
                            assert(rest[a] == ov[a]);
                            assert(cons_v(next@)[a] == sv[a]);
                            assert(a < cons_v(next@).len());
                        }
                    }
                }
                psi = next;
                steps += 1;
                resume_from = i;
            },
        }
    }
    let nf = is_normal_form(phi, &psi);
    IExResult { psi, is_normal_form: nf, steps }
}

proof fn lemma_cons_v_push_local(c: Seq<Vec<Term>>, s: Vec<Term>)
    ensures
        cons_v(c.push(s)) == cons_v(c).push(views_of(s@)),
{
    assert(cons_v(c.push(s)) =~= cons_v(c).push(views_of(s@)));
}

/// `↨♭` of tabled execution: the visible answers, and whether a normal form
/// was reached.
pub fn iex_tabled_concealed(phi: &Constellation, psi: Vec<Star>, fuel: usize) -> (r: (Vec<Star>, bool))
    ensures
        exists|out: Seq<Seq<TermV>>, steps: nat|
            tabled_post(cons_v(phi@), cons_v(psi@), fuel as nat, out, r.1, steps) && cons_v(r.0@) == visible(out),
{
    let res = iex_tabled(phi, psi, fuel);
    let v = conceal_and_filter(&res.psi);
    let r = (v, res.is_normal_form);
    proof {
        assert(tabled_post(cons_v(phi@), cons_v(psi@), fuel as nat, cons_v(res.psi@), r.1, res.steps as nat) && cons_v(r.0@) == visible(cons_v(res.psi@)));
    }
    r
}

// ─────────────────────────────────────────────────────────────────────────
// The exact decomposition of one step (§51.9)
// ─────────────────────────────────────────────────────────────────────────

/// The inverse of a renaming apart: the `i`-th machine variable of one side
/// back to the `i`-th variable of that side's star.
pub open spec fn unren_pairs(vs: Seq<VarV>, left: bool) -> Seq<(VarV, TermV)> {
    Seq::new(vs.len(), |i: int| (side_var(i as nat, left), TermV::Var(vs[i])))
}

/// Back from the renamed-apart variables of a fusion to the stars' own.
pub open spec fn unrename(s1: Seq<TermV>, s2: Seq<TermV>) -> Map<VarV, TermV> {
    pairs_map(unren_pairs(seq_vars(s1), true) + unren_pairs(seq_vars(s2), false))
}

/// The written bindings of a list, variable and term taken through `inv`.
pub open spec fn binding_texts(bs: Seq<(VarV, TermV)>, inv: Map<VarV, TermV>) -> Seq<(Seq<char>, Seq<char>)> {
    Seq::new(bs.len(), |k: int| (show(apply(TermV::Var(bs[k].0), inv)), show(apply(bs[k].1, inv))))
}

/// `theta` writes, in order, a most general unifier of `eqs` (its bindings
/// taken back through `inv`), and `result` is `rest` under that unifier.
pub open spec fn writes_unifier(
    theta: Seq<(Seq<char>, Seq<char>)>,
    eqs: Seq<(TermV, TermV)>,
    inv: Map<VarV, TermV>,
    rest: Seq<TermV>,
    result: Seq<TermV>,
) -> bool {
    exists|bs: Seq<(VarV, TermV)>|
        #![trigger binding_texts(bs, inv)]
        {
            &&& distinct_keys(bs)
            &&& is_mgu(pairs_map(bs), eqs)
            &&& idempotent(pairs_map(bs))
            &&& result == apply_seq(rest, pairs_map(bs))
            &&& sorted_pairs(theta)
            &&& theta.to_multiset() == binding_texts(bs, inv).to_multiset()
        }
}

/// One summand of a step: a fusion with `Φ[i][j]` (external) or a
/// self-interaction with another ray of the star, with the unifier the
/// engine applied, written as `(variable, term)` pairs in order, and the
/// star produced.
#[derive(Debug, Clone)]
pub struct Summand {
    pub external: bool,
    pub phi_target: Option<(usize, usize)>,
    pub self_ray: Option<usize>,
    pub theta: Vec<(String, String)>,
    pub result: Star,
}

/// One step at `Ψ[star][ray]`, summand by summand, and the interaction space
/// it leads to.
#[derive(Debug, Clone)]
pub struct StepDetail {
    pub star: usize,
    pub ray: usize,
    pub summands: Vec<Summand>,
    pub psi_after: Vec<Star>,
}

/// An external summand of a step along `star[j]`.
pub open spec fn ext_summand(phi: Seq<Seq<TermV>>, star: Seq<TermV>, j: int, sm: Summand) -> bool {
    &&& sm.external
    &&& sm.self_ray is None
    &&& sm.phi_target is Some
    &&& writes_unifier(
        pair_views(sm.theta@),
        fusion_eq(star, j, phi[sm.phi_target.unwrap().0 as int], sm.phi_target.unwrap().1 as int),
        unrename(star, phi[sm.phi_target.unwrap().0 as int]),
        fusion_rest(star, j, phi[sm.phi_target.unwrap().0 as int], sm.phi_target.unwrap().1 as int),
        star_v(sm.result@),
    )
}

/// A self-interaction summand of a step along `star[j]`; its variables are
/// the star's own.
pub open spec fn self_summand(star: Seq<TermV>, j: int, sm: Summand) -> bool {
    &&& !sm.external
    &&& sm.phi_target is None
    &&& sm.self_ray is Some
    &&& writes_unifier(
        pair_views(sm.theta@),
        self_eq(star, j, sm.self_ray.unwrap() as int),
        Map::empty(),
        remove_two(star, j, sm.self_ray.unwrap() as int),
        star_v(sm.result@),
    )
}

/// The summands of the step along `star[j]`: the fusions with every
/// matchable coloured ray of `Φ`, in order, then the self-interactions that
/// exist, in order.
pub open spec fn summands_ok(phi: Seq<Seq<TermV>>, star: Seq<TermV>, j: int, sms: Seq<Summand>) -> bool {
    exists|ne: int|
        #![trigger targets(sms, ne)]
        {
            &&& 0 <= ne <= sms.len()
            &&& forall|t: int| 0 <= t < ne ==> ext_summand(phi, star, j, #[trigger] sms[t])
            &&& is_ext_list(phi, star[j], targets(sms, ne))
            &&& forall|t: int| ne <= t < sms.len() ==> self_summand(star, j, #[trigger] sms[t])
            &&& is_self_ok_list(star, j, self_rays(sms, ne))
        }
}

/// `Ψ[i][j]` is a coloured ray whose step has at least one summand.
pub open spec fn has_summand(phi: Seq<Seq<TermV>>, psi: Seq<Seq<TermV>>, i: int, j: int) -> bool {
    &&& 0 <= i < psi.len()
    &&& 0 <= j < psi[i].len()
    &&& head_pol(psi[i][j]) != Polarity::Neutral
    &&& ((exists|a: int, b: int| ext_match(phi, psi[i][j], a, b)) || (exists|k: int| self_ok(psi[i], j, k)))
}

/// The inverse renaming of a fusion of `a` with `b`.
fn unrenaming(a: &Star, b: &Star) -> (r: Substitution)
    ensures
        r@ == unrename(star_v(a@), star_v(b@)),
{
    let va = crate::alpha::star_var_list(a);
    let vb = crate::alpha::star_var_list(b);
    let mut pairs: Vec<(Var, Term)> = Vec::new();
    let mut i: usize = 0;
    while i < va.len()
        invariant
            i <= va.len(),
            bindings_view(pairs@) == unren_pairs(crate::alpha::var_views(va@), true).take(i as int),
        decreases va.len() - i,
    {
        let t = Term::Var(va[i].dup());
        let ghost before = pairs@;
        pairs.push((Var::Left(i), t));
        proof {
            assert(bindings_view(pairs@) =~= bindings_view(before).push((VarV::Left(i as nat), TermV::Var(va@[i as int]@))));
            assert(unren_pairs(crate::alpha::var_views(va@), true).take(i + 1) =~= unren_pairs(crate::alpha::var_views(va@), true).take(i as int).push((VarV::Left(i as nat), TermV::Var(va@[i as int]@))));
        }
        i += 1;
    }
    let ghost left = bindings_view(pairs@);
    assert(left =~= unren_pairs(crate::alpha::var_views(va@), true));
    let mut k: usize = 0;
    while k < vb.len()
        invariant
            k <= vb.len(),
            bindings_view(pairs@) == left + unren_pairs(crate::alpha::var_views(vb@), false).take(k as int),
        decreases vb.len() - k,
    {
        let t = Term::Var(vb[k].dup());
        let ghost before = pairs@;
        pairs.push((Var::Right(k), t));
        proof {
            assert(bindings_view(pairs@) =~= bindings_view(before).push((VarV::Right(k as nat), TermV::Var(vb@[k as int]@))));
            assert(unren_pairs(crate::alpha::var_views(vb@), false).take(k + 1) =~= unren_pairs(crate::alpha::var_views(vb@), false).take(k as int).push((VarV::Right(k as nat), TermV::Var(vb@[k as int]@))));
        }
        k += 1;
    }
    assert(unren_pairs(crate::alpha::var_views(vb@), false).take(vb.len() as int) =~= unren_pairs(crate::alpha::var_views(vb@), false));
    Substitution { pairs }
}

/// The bindings of `sigma`, variable and term taken through `inv`, written
/// and sorted.
fn render_theta(sigma: &Substitution, inv: &Substitution) -> (r: Vec<(String, String)>)
    ensures
        sorted_pairs(pair_views(r@)),
        pair_views(r@).to_multiset() == binding_texts(bindings_view(sigma.pairs@), inv@).to_multiset(),
{
    let ghost all = binding_texts(bindings_view(sigma.pairs@), inv@);
    let mut out: Vec<(String, String)> = Vec::new();
    let mut k: usize = 0;
    assert(pair_views(out@) =~= Seq::<(Seq<char>, Seq<char>)>::empty());
    assert(all.take(0) =~= Seq::<(Seq<char>, Seq<char>)>::empty());
    while k < sigma.pairs.len()
        invariant
            k <= sigma.pairs.len(),
            all == binding_texts(bindings_view(sigma.pairs@), inv@),
            sorted_pairs(pair_views(out@)),
            pair_views(out@).to_multiset() == all.take(k as int).to_multiset(),
        decreases sigma.pairs.len() - k,
    {
        let x = &sigma.pairs[k].0;
        let t = &sigma.pairs[k].1;
        let key = inv.apply(&Term::Var(x.dup())).text();
        let val = inv.apply(t).text();
        proof {
            assert((key@, val@) == all[k as int]);
            assert(all.take(k + 1) =~= all.take(k as int).push(all[k as int]));
            vstd::seq_lib::to_multiset_build(all.take(k as int), all[k as int]);
        }
        insert_pair(&mut out, (key, val));
        k += 1;
    }
    assert(all.take(sigma.pairs.len() as int) =~= all);
    out
}

/// Ψ without its star number `i`.
fn psi_without(psi: &Vec<Star>, i: usize) -> (r: Vec<Star>)
    requires
        i < psi.len(),
    ensures
        cons_v(r@) == cons_v(psi@).remove(i as int),
{
    let ghost sv = cons_v(psi@);
    let mut out: Vec<Star> = Vec::new();
    let mut k: usize = 0;
    while k < psi.len()
        invariant
            k <= psi.len(),
            i < psi.len(),
            sv == cons_v(psi@),
            cons_v(out@) =~= sv.remove(i as int).subrange(
                0,
                if i < k {
                    k - 1
                } else {
                    k as int
                },
            ),
        decreases psi.len() - k,
    {
        if k != i {
            let ghost before = out@;
            out.push(copy_star(&psi[k]));
            proof {
                let n = if i < k {
                    k - 1
                } else {
                    k as int
                };
                assert(sv.remove(i as int)[n] == sv[k as int]);
                assert(sv.remove(i as int).subrange(0, n + 1) =~= sv.remove(i as int).subrange(0, n).push(
                    sv[k as int],
                ));
                assert(cons_v(out@) =~= cons_v(before).push(sv[k as int]));
            }
        }
        k += 1;
    }
    assert(sv.remove(i as int).subrange(0, sv.len() - 1) =~= sv.remove(i as int));
    out
}

/// The targets of the first `ne` summands, as pairs of integers.
pub open spec fn targets(sms: Seq<Summand>, ne: int) -> Seq<(int, int)> {
    Seq::new(ne as nat, |t: int| (sms[t].phi_target.unwrap().0 as int, sms[t].phi_target.unwrap().1 as int))
}

/// The self rays of the summands from `ne` on, as integers.
pub open spec fn self_rays(sms: Seq<Summand>, ne: int) -> Seq<int> {
    Seq::new((sms.len() - ne) as nat, |t: int| sms[ne + t].self_ray.unwrap() as int)
}

/// The stars produced by the summands.
pub open spec fn results(sms: Seq<Summand>) -> Seq<Seq<TermV>> {
    Seq::new(sms.len(), |t: int| star_v(sms[t].result@))
}

/// Summands built in order make the step.
proof fn lemma_summands_step(
    pv: Seq<Seq<TermV>>,
    sv: Seq<Seq<TermV>>,
    i: int,
    j: int,
    sums: Seq<Summand>,
    ne: int,
    sl: Seq<int>,
    ov: Seq<Seq<TermV>>,
)
    requires
        0 <= i < sv.len(),
        0 <= j < sv[i].len(),
        0 <= ne <= sums.len(),
        sums.len() == ne + sl.len(),
        forall|w: int| 0 <= w < ne ==> ext_summand(pv, sv[i], j, #[trigger] sums[w]),
        is_ext_list(pv, sv[i][j], targets(sums, ne)),
        forall|w: int| ne <= w < sums.len() ==> self_summand(sv[i], j, #[trigger] sums[w]),
        self_rays(sums, ne) == sl,
        is_self_ok_list(sv[i], j, sl),
        ov == sv.remove(i) + results(sums),
    ensures
        summands_ok(pv, sv[i], j, sums),
        step_ok(pv, sv, i, j, ov),
{
    let star = sv[i];
    let rest = sv.remove(i);
    let ex = targets(sums, ne);
    assert(summands_ok(pv, star, j, sums));
    assert(ov.subrange(0, rest.len() as int) =~= rest);
    assert forall|w: int| 0 <= w < ex.len() implies is_fusion(
        star,
        j,
        pv[ex[w].0],
        ex[w].1,
        #[trigger] ov[rest.len() + w],
    ) by {
        let sm = sums[w];
        assert(ext_summand(pv, star, j, sm));
        let inv = unrename(star, pv[ex[w].0]);
        let bs = choose|bs: Seq<(VarV, TermV)>| #![trigger binding_texts(bs, inv)]
            {
                &&& distinct_keys(bs)
                &&& is_mgu(pairs_map(bs), fusion_eq(star, j, pv[ex[w].0], ex[w].1))
                &&& idempotent(pairs_map(bs))
                &&& star_v(sm.result@) == apply_seq(fusion_rest(star, j, pv[ex[w].0], ex[w].1), pairs_map(bs))
                &&& sorted_pairs(pair_views(sm.theta@))
                &&& pair_views(sm.theta@).to_multiset() == binding_texts(bs, inv).to_multiset()
            };
        assert(ov[rest.len() + w] == star_v(sm.result@));
    }
    assert forall|w: int| 0 <= w < sl.len() implies is_self_interaction(
        star,
        j,
        sl[w],
        #[trigger] ov[rest.len() + ex.len() + w],
    ) by {
        let sm = sums[ne + w];
        assert(self_summand(star, j, sm));
        assert(self_rays(sums, ne)[w] == sl[w]);
        let inv = Map::<VarV, TermV>::empty();
        let bs = choose|bs: Seq<(VarV, TermV)>| #![trigger binding_texts(bs, inv)]
            {
                &&& distinct_keys(bs)
                &&& is_mgu(pairs_map(bs), self_eq(star, j, sl[w]))
                &&& idempotent(pairs_map(bs))
                &&& star_v(sm.result@) == apply_seq(remove_two(star, j, sl[w]), pairs_map(bs))
                &&& sorted_pairs(pair_views(sm.theta@))
                &&& pair_views(sm.theta@).to_multiset() == binding_texts(bs, inv).to_multiset()
            };
        assert(ov[rest.len() + ex.len() + w] == star_v(sm.result@));
    }
    assert(step_ok(pv, sv, i, j, ov));
}

/// One step at the chosen ray `Ψ[star_idx][ray_idx]`, with its exact
/// decomposition: every summand, the unifier it applied (for a fusion,
/// written in the two stars' own variables) and the star it produced; and
/// the successor interaction space, which is `Ψ` without the star followed
/// by the summands' stars, exactly the step of `IEx`. `None` when the
/// position is out of range, the ray is uncoloured, or the step has no
/// summand. `counter` counts the fresh copies of `Φ` stars taken
/// (saturating).
#[verifier::spinoff_prover]
pub fn step_detail(
    phi: &Constellation,
    psi: &Vec<Star>,
    star_idx: usize,
    ray_idx: usize,
    counter: &mut u32,
) -> (r: Option<StepDetail>)
    ensures
        r is Some <==> has_summand(cons_v(phi@), cons_v(psi@), star_idx as int, ray_idx as int),
        r is None ==> *final(counter) == *old(counter),
        r is Some ==> {
            let d = r.unwrap();
            let sv = cons_v(psi@);
            &&& d.star == star_idx
            &&& d.ray == ray_idx
            &&& summands_ok(cons_v(phi@), sv[star_idx as int], ray_idx as int, d.summands@)
            &&& cons_v(d.psi_after@) == sv.remove(star_idx as int) + results(d.summands@)
            &&& step_ok(cons_v(phi@), sv, star_idx as int, ray_idx as int, cons_v(d.psi_after@))
            &&& exists|ne: nat|
                #![trigger targets(d.summands@, ne as int)]
                ne <= d.summands@.len() && is_ext_list(
                    cons_v(phi@),
                    sv[star_idx as int][ray_idx as int],
                    targets(d.summands@, ne as int),
                ) && *final(counter) == (if *old(counter) + ne > u32::MAX {
                    u32::MAX as int
                } else {
                    *old(counter) + ne
                })
        },
{
    let ghost pv = cons_v(phi@);
    let ghost sv = cons_v(psi@);
    if star_idx >= psi.len() {
        return None;
    }
    let selected = &psi[star_idx];
    let ghost star = sv[star_idx as int];
    proof {
        lemma_views_of(selected@);
        assert(star == views_of(selected@));
    }
    if ray_idx >= selected.len() {
        return None;
    }
    let r = &selected[ray_idx];
    proof {
        assert(star[ray_idx as int] == r@);
    }
    let coloured = match r {
        Term::App(f, _) => f.pol != Polarity::Neutral,
        Term::Var(_) => false,
    };
    if !coloured {
        return None;
    }
    let mut out = psi_without(psi, star_idx);
    let ghost rest = sv.remove(star_idx as int);
    let mut sums: Vec<Summand> = Vec::new();
    // External fusions.
    let ext = mat_ext(phi, r);
    let mut t: usize = 0;
    while t < ext.len()
        invariant
            t <= ext.len(),
            star_idx < psi.len(),
            ray_idx < star.len(),
            selected == psi[star_idx as int],
            star == views_of(selected@),
            star.len() == selected.len(),
            forall|m: int| 0 <= m < selected.len() ==> star[m] == selected[m]@,
            r == selected[ray_idx as int],
            pv == cons_v(phi@),
            is_ext_list(pv, star[ray_idx as int], pairs_int(ext@)),
            sums.len() == t,
            cons_v(out@) == rest + results(sums@),
            forall|u: int| 0 <= u < t ==> ext_summand(pv, star, ray_idx as int, #[trigger] sums@[u]),
            forall|u: int| 0 <= u < t ==> (#[trigger] sums@[u]).phi_target == Some(ext@[u]),
        decreases ext.len() - t,
    {
        let (ik, jk) = ext[t];
        proof {
            assert(ext_match(pv, star[ray_idx as int], pairs_int(ext@)[t as int].0, pairs_int(ext@)[t as int].1));
            lemma_views_of(phi[ik as int]@);
            assert(pv[ik as int] == views_of(phi[ik as int]@));
            lemma_match_fuses(pv, star, ray_idx as int, ik as int, jk as int);
            lemma_fusion_unifiable(star, ray_idx as int, pv[ik as int], jk as int);
        }
        match fuse_theta(selected, ray_idx, &phi[ik], jk) {
            Some((f, sigma)) => {
                let inv = unrenaming(selected, &phi[ik]);
                let theta = render_theta(&sigma, &inv);
                let ghost bs = bindings_view(sigma.pairs@);
                let res = copy_star(&f);
                let sm = Summand { external: true, phi_target: Some((ik, jk)), self_ray: None, theta, result: res };
                proof {
                    assert(writes_unifier(
                        pair_views(sm.theta@),
                        fusion_eq(star, ray_idx as int, pv[ik as int], jk as int),
                        unrename(star, pv[ik as int]),
                        fusion_rest(star, ray_idx as int, pv[ik as int], jk as int),
                        star_v(sm.result@),
                    )) by {
                        assert(binding_texts(bs, unrename(star, pv[ik as int])) == binding_texts(bs, inv@));
                    }
                    assert(ext_summand(pv, star, ray_idx as int, sm));
                }
                let ghost before_out = out@;
                let ghost before_sums = sums@;
                out.push(f);
                sums.push(sm);
                proof {
                    assert(results(sums@) =~= results(before_sums).push(star_v(f@)));
                    assert(cons_v(out@) =~= cons_v(before_out).push(star_v(f@)));
                    assert forall|u: int| 0 <= u < t + 1 implies ext_summand(pv, star, ray_idx as int, #[trigger] sums@[u]) by {
                        if u < t {
                            assert(sums@[u] == before_sums[u]);
                        }
                    }
                    assert forall|u: int| 0 <= u < t + 1 implies (#[trigger] sums@[u]).phi_target == Some(ext@[u]) by {
                        if u < t {
                            assert(sums@[u] == before_sums[u]);
                        }
                    }
                }
            },
            None => {
                proof {
                    assert(false);
                }
            },
        }
        t += 1;
    }
    let ne = sums.len();
    proof {
        assert(targets(sums@, ne as int) =~= pairs_int(ext@));
    }
    // Self-interactions.
    let selfs = mat_self(selected, ray_idx);
    let ghost mut sl: Seq<int> = Seq::empty();
    let mut u: usize = 0;
    while u < selfs.len()
        invariant
            u <= selfs.len(),
            ray_idx < star.len(),
            star == views_of(selected@),
            star.len() == selected.len(),
            ne == ext.len(),
            ne <= sums.len(),
            pv == cons_v(phi@),
            is_ext_list(pv, star[ray_idx as int], pairs_int(ext@)),
            targets(sums@, ne as int) == pairs_int(ext@),
            is_self_list(star, ray_idx as int, idx_int(selfs@)),
            forall|p: int, q: int| 0 <= p < q < sl.len() ==> sl[p] < sl[q],
            forall|x: int| 0 <= x < sl.len() ==> self_ok(star, ray_idx as int, #[trigger] sl[x]),
            forall|x: int| 0 <= x < sl.len() ==> exists|y: int| 0 <= y < u && idx_int(selfs@)[y] == #[trigger] sl[x],
            forall|y: int| 0 <= y < u && self_ok(star, ray_idx as int, #[trigger] idx_int(selfs@)[y]) ==> sl.contains(idx_int(selfs@)[y]),
            forall|x: int, y: int| 0 <= x < sl.len() && u <= y < selfs.len() ==> #[trigger] sl[x] < #[trigger] idx_int(selfs@)[y],
            sums.len() == ne + sl.len(),
            cons_v(out@) == rest + results(sums@),
            forall|w: int| 0 <= w < ne ==> ext_summand(pv, star, ray_idx as int, #[trigger] sums@[w]),
            forall|w: int| ne <= w < sums.len() ==> self_summand(star, ray_idx as int, #[trigger] sums@[w]),
            self_rays(sums@, ne as int) == sl,
        decreases selfs.len() - u,
    {
        let jk = selfs[u];
        proof {
            assert(self_match(star, ray_idx as int, idx_int(selfs@)[u as int]));
        }
        match self_interact_theta(selected, ray_idx, jk) {
            Some((s2, sigma)) => {
                let inv = Substitution::new();
                let theta = render_theta(&sigma, &inv);
                let ghost bs = bindings_view(sigma.pairs@);
                let res = copy_star(&s2);
                let sm = Summand { external: false, phi_target: None, self_ray: Some(jk), theta, result: res };
                proof {
                    assert(inv@ =~= Map::<VarV, TermV>::empty());
                    assert(binding_texts(bs, Map::empty()) == binding_texts(bs, inv@));
                    assert(self_summand(star, ray_idx as int, sm));
                }
                let ghost before_out = out@;
                let ghost before_sums = sums@;
                out.push(s2);
                sums.push(sm);
                proof {
                    assert(results(sums@) =~= results(before_sums).push(star_v(s2@)));
                    assert(cons_v(out@) =~= cons_v(before_out).push(star_v(s2@)));
                    assert forall|w: int| 0 <= w < ne implies ext_summand(pv, star, ray_idx as int, #[trigger] sums@[w]) by {
                        assert(sums@[w] == before_sums[w]);
                    }
                    assert forall|w: int| ne <= w < sums.len() implies self_summand(star, ray_idx as int, #[trigger] sums@[w]) by {
                        if w < sums.len() - 1 {
                            assert(sums@[w] == before_sums[w]);
                        }
                    }
                    assert(targets(sums@, ne as int) =~= targets(before_sums, ne as int));
                    let old_sl = sl;
                    sl = sl.push(jk as int);
                    assert(self_rays(sums@, ne as int) =~= self_rays(before_sums, ne as int).push(jk as int));
                    assert(self_ok(star, ray_idx as int, jk as int));
                    assert forall|y: int| 0 <= y < u + 1 && self_ok(star, ray_idx as int, #[trigger] idx_int(selfs@)[y]) implies sl.contains(idx_int(selfs@)[y]) by {
                        if y == u {
                            assert(sl[old_sl.len() as int] == jk as int);
                        } else {
                            let x = choose|x: int| 0 <= x < old_sl.len() && old_sl[x] == idx_int(selfs@)[y];
                            assert(sl[x] == old_sl[x]);
                        }
                    }
                }
            },
            None => {},
        }
        u += 1;
    }
    proof {
        assert forall|k: int| #[trigger] self_ok(star, ray_idx as int, k) implies sl.contains(k) by {
            assert(self_match(star, ray_idx as int, k));
            assert(idx_int(selfs@).contains(k));
            let y = choose|y: int| 0 <= y < idx_int(selfs@).len() && idx_int(selfs@)[y] == k;
            assert(self_ok(star, ray_idx as int, idx_int(selfs@)[y]));
        }
        assert(is_self_ok_list(star, ray_idx as int, sl));
    }
    if sums.len() == 0 {
        proof {
            assert forall|a: int, b: int| !ext_match(pv, sv[star_idx as int][ray_idx as int], a, b) by {
                if ext_match(pv, sv[star_idx as int][ray_idx as int], a, b) {
                    assert(pairs_int(ext@).contains((a, b)));
                }
            }
            assert forall|k: int| !self_ok(sv[star_idx as int], ray_idx as int, k) by {
                if self_ok(star, ray_idx as int, k) {
                    assert(sl.contains(k));
                }
            }
        }
        return None;
    }
    proof {
        if ne > 0 {
            assert(ext_match(pv, star[ray_idx as int], pairs_int(ext@)[0].0, pairs_int(ext@)[0].1));
        } else {
            assert(self_ok(star, ray_idx as int, sl[0]));
        }
        assert(has_summand(pv, sv, star_idx as int, ray_idx as int));
        lemma_summands_step(pv, sv, star_idx as int, ray_idx as int, sums@, ne as int, sl, cons_v(out@));
    }
    let n = ext.len();
    *counter = if n > (u32::MAX - *counter) as usize {
        u32::MAX
    } else {
        *counter + n as u32
    };
    let d = StepDetail { star: star_idx, ray: ray_idx, summands: sums, psi_after: out };
    proof {
        assert(summands_ok(pv, sv[star_idx as int], ray_idx as int, d.summands@));
        assert(cons_v(d.psi_after@) == sv.remove(star_idx as int) + results(d.summands@));
        assert(step_ok(pv, sv, star_idx as int, ray_idx as int, cons_v(d.psi_after@)));
        assert(targets(d.summands@, ne as int) == pairs_int(ext@));
        assert(ne as nat <= d.summands@.len() && is_ext_list(
            pv,
            sv[star_idx as int][ray_idx as int],
            targets(d.summands@, ne as int),
        ) && *counter == (if *old(counter) + (ne as nat) > u32::MAX {
            u32::MAX as int
        } else {
            *old(counter) + (ne as nat)
        }));
    }
    Some(d)
}

/// Tabling never adds more stars than a step produced, and a step whose
/// produced stars are all variants of tabled ones adds none: the run has
/// reached its fixpoint on that star.
pub proof fn lemma_fresh_stars_bounded(ps: Seq<Seq<TermV>>, table: Set<Seq<TermV>>)
    ensures
        fresh_stars(ps, table).len() <= ps.len(),
        (forall|k: int| 0 <= k < ps.len() ==> table.contains(#[trigger] star_key(ps[k])))
            ==> fresh_stars(ps, table).len() == 0,
    decreases ps.len(),
{
    if ps.len() > 0 {
        lemma_fresh_stars_bounded(ps.drop_last(), table);
        if forall|k: int| 0 <= k < ps.len() ==> table.contains(#[trigger] star_key(ps[k])) {
            assert forall|k: int| 0 <= k < ps.drop_last().len() implies table.contains(
                #[trigger] star_key(ps.drop_last()[k]),
            ) by {
                assert(ps.drop_last()[k] == ps[k]);
            }
            assert(table.contains(star_key(ps[ps.len() - 1])));
        }
    }
}

/// The redex at which `IEx` steps is determined: there is at most one first
/// redex.
pub proof fn lemma_first_redex_unique(phi: Seq<Seq<TermV>>, psi: Seq<Seq<TermV>>, i: int, j: int, a: int, b: int)
    requires
        is_first_redex(phi, psi, i, j),
        is_first_redex(phi, psi, a, b),
    ensures
        i == a && j == b,
{
    if lex_lt((a, b), (i, j)) {
        assert(!has_redex(phi, psi, a, b));
    } else if lex_lt((i, j), (a, b)) {
        assert(!has_redex(phi, psi, i, j));
    }
}

/// The images of a star under two most general unifiers of one system are
/// α-equivalent.
pub proof fn lemma_mgu_images_alpha_equiv(
    ts: Seq<TermV>,
    es: Seq<(TermV, TermV)>,
    s1: Map<VarV, TermV>,
    s2: Map<VarV, TermV>,
)
    requires
        is_mgu(s1, es),
        is_mgu(s2, es),
    ensures
        alpha_equiv(apply_seq(ts, s1), apply_seq(ts, s2)),
{
    let o1 = apply_seq(ts, s1);
    let o2 = apply_seq(ts, s2);
    lemma_apply_seq(ts, s1);
    lemma_apply_seq(ts, s2);
    lemma_apply_seq(o1, s2);
    assert forall|k: int| 0 <= k < ts.len() implies #[trigger] o2[k] == apply(o1[k], s2) by {
        lemma_mgu_unique_up_to_renaming(s1, s2, es, ts[k]);
    }
    assert(apply_seq(o1, s2) =~= o2);
    lemma_tvars_seq(o1);
    assert forall|y: VarV| #[trigger] tvars_seq(o1).contains(y) implies apply(TermV::Var(y), s2) is Var
        && apply(apply(TermV::Var(y), s2), s1) == TermV::Var(y) by {
        let k = choose|k: int| 0 <= k < o1.len() && tvars(o1[k]).contains(y);
        lemma_mgu_unique_up_to_renaming(s1, s2, es, ts[k]);
    }
    assert(renames_on(s2, s1, tvars_seq(o1)));
    lemma_canonical_renaming_invariant(o1, s2, s1, true);
    assert(renamed_star(o2, true) =~= renamed_star(o1, true));
}

/// A fusion is determined up to α: whichever most general unifier is taken,
/// the fused stars are α-equivalent.
pub proof fn lemma_fusion_alpha_unique(s1: Seq<TermV>, j: int, s2: Seq<TermV>, j2: int, o1: Seq<TermV>, o2: Seq<TermV>)
    requires
        is_fusion(s1, j, s2, j2, o1),
        is_fusion(s1, j, s2, j2, o2),
    ensures
        alpha_equiv(o1, o2),
{
    let es = fusion_eq(s1, j, s2, j2);
    let rest = fusion_rest(s1, j, s2, j2);
    let a = choose|sigma: Map<VarV, TermV>| is_mgu(sigma, es) && o1 == apply_seq(rest, sigma);
    let b = choose|sigma: Map<VarV, TermV>| is_mgu(sigma, es) && o2 == apply_seq(rest, sigma);
    lemma_mgu_images_alpha_equiv(rest, es, a, b);
}

/// A self-interaction is determined up to α.
pub proof fn lemma_self_interaction_alpha_unique(s: Seq<TermV>, j: int, k: int, o1: Seq<TermV>, o2: Seq<TermV>)
    requires
        is_self_interaction(s, j, k, o1),
        is_self_interaction(s, j, k, o2),
    ensures
        alpha_equiv(o1, o2),
{
    let es = self_eq(s, j, k);
    let rest = remove_two(s, j, k);
    let a = choose|sigma: Map<VarV, TermV>| is_mgu(sigma, es) && o1 == apply_seq(rest, sigma);
    let b = choose|sigma: Map<VarV, TermV>| is_mgu(sigma, es) && o2 == apply_seq(rest, sigma);
    lemma_mgu_images_alpha_equiv(rest, es, a, b);
}

proof fn lemma_sorted_pairs_unique(l1: Seq<(int, int)>, l2: Seq<(int, int)>)
    requires
        forall|p: int, q: int| 0 <= p < q < l1.len() ==> lex_lt(l1[p], l1[q]),
        forall|p: int, q: int| 0 <= p < q < l2.len() ==> lex_lt(l2[p], l2[q]),
        forall|x: (int, int)| l1.contains(x) <==> l2.contains(x),
    ensures
        l1 == l2,
    decreases l1.len(),
{
    if l1.len() == 0 {
        if l2.len() > 0 {
            assert(l2.contains(l2[0]));
        }
        assert(l1 =~= l2);
    } else {
        assert(l1.contains(l1[0]));
        assert(l2.len() > 0);
        assert(l2.contains(l2[0]));
        let q = choose|q: int| 0 <= q < l2.len() && l2[q] == l1[0];
        let p = choose|p: int| 0 <= p < l1.len() && l1[p] == l2[0];
        if q > 0 && p > 0 {
            assert(lex_lt(l2[0], l2[q]));
            assert(lex_lt(l1[0], l1[p]));
            assert(false);
        }
        assert(l1[0] == l2[0]);
        let t1 = l1.skip(1);
        let t2 = l2.skip(1);
        assert forall|x: (int, int)| t1.contains(x) <==> t2.contains(x) by {
            if t1.contains(x) {
                let a = choose|a: int| 0 <= a < t1.len() && t1[a] == x;
                assert(l1[a + 1] == x);
                assert(lex_lt(l1[0], l1[a + 1]));
                assert(l2.contains(x));
                let b = choose|b: int| 0 <= b < l2.len() && l2[b] == x;
                if b == 0 {
                    assert(false);
                }
                assert(t2[b - 1] == x);
            }
            if t2.contains(x) {
                let a = choose|a: int| 0 <= a < t2.len() && t2[a] == x;
                assert(l2[a + 1] == x);
                assert(lex_lt(l2[0], l2[a + 1]));
                assert(l1.contains(x));
                let b = choose|b: int| 0 <= b < l1.len() && l1[b] == x;
                if b == 0 {
                    assert(false);
                }
                assert(t1[b - 1] == x);
            }
        }
        assert forall|p: int, q: int| 0 <= p < q < t1.len() implies lex_lt(t1[p], t1[q]) by {
            assert(t1[p] == l1[p + 1] && t1[q] == l1[q + 1]);
        }
        assert forall|p: int, q: int| 0 <= p < q < t2.len() implies lex_lt(t2[p], t2[q]) by {
            assert(t2[p] == l2[p + 1] && t2[q] == l2[q + 1]);
        }
        lemma_sorted_pairs_unique(t1, t2);
        assert(l1 =~= seq![l1[0]] + t1);
        assert(l2 =~= seq![l2[0]] + t2);
    }
}

proof fn lemma_sorted_ints_unique(l1: Seq<int>, l2: Seq<int>)
    requires
        forall|p: int, q: int| 0 <= p < q < l1.len() ==> l1[p] < l1[q],
        forall|p: int, q: int| 0 <= p < q < l2.len() ==> l2[p] < l2[q],
        forall|x: int| l1.contains(x) <==> l2.contains(x),
    ensures
        l1 == l2,
{
    let m1 = l1.map_values(|x: int| (0int, x));
    let m2 = l2.map_values(|x: int| (0int, x));
    assert forall|x: (int, int)| m1.contains(x) <==> m2.contains(x) by {
        if m1.contains(x) {
            let a = choose|a: int| 0 <= a < m1.len() && m1[a] == x;
            assert(l1.contains(l1[a]));
            let b = choose|b: int| 0 <= b < l2.len() && l2[b] == l1[a];
            assert(m2[b] == x);
        }
        if m2.contains(x) {
            let a = choose|a: int| 0 <= a < m2.len() && m2[a] == x;
            assert(l2.contains(l2[a]));
            let b = choose|b: int| 0 <= b < l1.len() && l1[b] == l2[a];
            assert(m1[b] == x);
        }
    }
    lemma_sorted_pairs_unique(m1, m2);
    assert(m1.len() == l1.len() && m2.len() == l2.len());
    assert forall|k: int| 0 <= k < l1.len() implies l1[k] == l2[k] by {
        assert(m1[k] == m2[k]);
        assert(m1[k] == (0int, l1[k]));
        assert(m2[k] == (0int, l2[k]));
    }
    assert(l1 =~= l2);
}

/// One step of `IEx` is determined up to α: two results of a step at the same
/// ray have the same length, and their stars are α-equivalent one by one.
pub proof fn lemma_step_alpha_unique(
    phi: Seq<Seq<TermV>>,
    psi: Seq<Seq<TermV>>,
    i: int,
    j: int,
    out1: Seq<Seq<TermV>>,
    out2: Seq<Seq<TermV>>,
)
    requires
        0 <= i < psi.len(),
        step_ok(phi, psi, i, j, out1),
        step_ok(phi, psi, i, j, out2),
    ensures
        out1.len() == out2.len(),
        forall|k: int| 0 <= k < out1.len() ==> alpha_equiv(#[trigger] out1[k], out2[k]),
{
    let rest = psi.remove(i);
    let (e1, l1) = choose|ext: Seq<(int, int)>, sl: Seq<int>| {
            &&& is_ext_list(phi, psi[i][j], ext)
            &&& is_self_ok_list(psi[i], j, sl)
            &&& out1.len() == psi.remove(i).len() + ext.len() + sl.len()
            &&& out1.subrange(0, psi.remove(i).len() as int) == psi.remove(i)
            &&& forall|t: int|
                0 <= t < ext.len() ==> is_fusion(
                    psi[i],
                    j,
                    phi[ext[t].0],
                    ext[t].1,
                    #[trigger] out1[psi.remove(i).len() + t],
                )
            &&& forall|t: int|
                0 <= t < sl.len() ==> is_self_interaction(
                    psi[i],
                    j,
                    sl[t],
                    #[trigger] out1[psi.remove(i).len() + ext.len() + t],
                )
        };
    let (e2, l2) = choose|ext: Seq<(int, int)>, sl: Seq<int>| {
            &&& is_ext_list(phi, psi[i][j], ext)
            &&& is_self_ok_list(psi[i], j, sl)
            &&& out2.len() == psi.remove(i).len() + ext.len() + sl.len()
            &&& out2.subrange(0, psi.remove(i).len() as int) == psi.remove(i)
            &&& forall|t: int|
                0 <= t < ext.len() ==> is_fusion(
                    psi[i],
                    j,
                    phi[ext[t].0],
                    ext[t].1,
                    #[trigger] out2[psi.remove(i).len() + t],
                )
            &&& forall|t: int|
                0 <= t < sl.len() ==> is_self_interaction(
                    psi[i],
                    j,
                    sl[t],
                    #[trigger] out2[psi.remove(i).len() + ext.len() + t],
                )
        };
    assert forall|x: (int, int)| e1.contains(x) <==> e2.contains(x) by {
        if e1.contains(x) {
            let t = choose|t: int| 0 <= t < e1.len() && e1[t] == x;
            assert(ext_match(phi, psi[i][j], e1[t].0, e1[t].1));
        }
        if e2.contains(x) {
            let t = choose|t: int| 0 <= t < e2.len() && e2[t] == x;
            assert(ext_match(phi, psi[i][j], e2[t].0, e2[t].1));
        }
    }
    lemma_sorted_pairs_unique(e1, e2);
    assert forall|x: int| l1.contains(x) <==> l2.contains(x) by {
        if l1.contains(x) {
            let t = choose|t: int| 0 <= t < l1.len() && l1[t] == x;
            assert(self_ok(psi[i], j, l1[t]));
        }
        if l2.contains(x) {
            let t = choose|t: int| 0 <= t < l2.len() && l2[t] == x;
            assert(self_ok(psi[i], j, l2[t]));
        }
    }
    lemma_sorted_ints_unique(l1, l2);
    let n = rest.len() as int;
    assert forall|k: int| 0 <= k < out1.len() implies alpha_equiv(#[trigger] out1[k], out2[k]) by {
        if k < n {
            assert(out1.subrange(0, n)[k] == rest[k]);
            assert(out2.subrange(0, n)[k] == rest[k]);
        } else if k < n + e1.len() {
            let t = k - n;
            assert(out1[n + t] == out1[k]);
            lemma_fusion_alpha_unique(psi[i], j, phi[e1[t].0], e1[t].1, out1[n + t], out2[n + t]);
        } else {
            let t = k - n - e1.len();
            assert(out1[n + e1.len() + t] == out1[k]);
            lemma_self_interaction_alpha_unique(psi[i], j, l1[t], out1[n + e1.len() + t], out2[n + e1.len() + t]);
        }
    }
}

// ─────────────────────────────────────────────────────────────────────────
// Runs are determined up to renaming
// ─────────────────────────────────────────────────────────────────────────

/// `b` is `a` with its variables renamed.
pub open spec fn star_renamed(a: Seq<TermV>, b: Seq<TermV>) -> bool {
    exists|rho: Map<VarV, TermV>, inv: Map<VarV, TermV>|
        renames_on(rho, inv, tvars_seq(a)) && b == apply_seq(a, rho)
}

/// Two interaction spaces whose stars are renamings of each other, one by one.
pub open spec fn states_renamed(p: Seq<Seq<TermV>>, q: Seq<Seq<TermV>>) -> bool {
    &&& p.len() == q.len()
    &&& forall|k: int| 0 <= k < p.len() ==> star_renamed(#[trigger] p[k], q[k])
}

proof fn lemma_star_renamed_of(o1: Seq<TermV>, o2: Seq<TermV>, tau: Map<VarV, TermV>, kappa: Map<VarV, TermV>)
    requires
        o1.len() == o2.len(),
        forall|k: int| 0 <= k < o1.len() ==> #[trigger] o2[k] == apply(o1[k], tau) && apply(o2[k], kappa) == o1[k],
    ensures
        star_renamed(o1, o2),
{
    lemma_apply_seq(o1, tau);
    assert(apply_seq(o1, tau) =~= o2);
    lemma_tvars_seq(o1);
    assert forall|y: VarV| #[trigger] tvars_seq(o1).contains(y) implies apply(TermV::Var(y), tau) is Var
        && apply(apply(TermV::Var(y), tau), kappa) == TermV::Var(y) by {
        let k = choose|k: int| 0 <= k < o1.len() && tvars(o1[k]).contains(y);
        assert(o2[k] == apply(o1[k], tau));
        lemma_apply_compose(o1[k], kappa, tau);
        lemma_fixed_term_fixes_vars(o1[k], compose(kappa, tau));
        lemma_apply_compose(TermV::Var(y), kappa, tau);
    }
    assert(renames_on(tau, kappa, tvars_seq(o1)));
}

/// A renamed star is α-equivalent to the star.
pub proof fn lemma_star_renamed_alpha(a: Seq<TermV>, b: Seq<TermV>)
    requires
        star_renamed(a, b),
    ensures
        alpha_equiv(a, b),
{
    let (rho, inv) = choose|rho: Map<VarV, TermV>, inv: Map<VarV, TermV>|
        renames_on(rho, inv, tvars_seq(a)) && b == apply_seq(a, rho);
    lemma_canonical_renaming_invariant(a, rho, inv, true);
    assert(renamed_star(b, true) =~= renamed_star(a, true));
}

proof fn lemma_mgu_images_renamed(ts: Seq<TermV>, es: Seq<(TermV, TermV)>, s1: Map<VarV, TermV>, s2: Map<VarV, TermV>)
    requires
        is_mgu(s1, es),
        is_mgu(s2, es),
    ensures
        star_renamed(apply_seq(ts, s1), apply_seq(ts, s2)),
{
    let o1 = apply_seq(ts, s1);
    let o2 = apply_seq(ts, s2);
    lemma_apply_seq(ts, s1);
    lemma_apply_seq(ts, s2);
    assert forall|k: int| 0 <= k < o1.len() implies #[trigger] o2[k] == apply(o1[k], s2) && apply(o2[k], s1) == o1[k] by {
        lemma_mgu_unique_up_to_renaming(s1, s2, es, ts[k]);
    }
    lemma_star_renamed_of(o1, o2, s2, s1);
}

proof fn lemma_star_renamed_self(a: Seq<TermV>)
    ensures
        star_renamed(a, a),
{
    let e = Map::<VarV, TermV>::empty();
    lemma_apply_seq(a, e);
    assert forall|k: int| 0 <= k < a.len() implies apply(a[k], e) == a[k] by {
        lemma_apply_id(a[k], e);
    }
    assert(apply_seq(a, e) =~= a);
    assert(renames_on(e, e, tvars_seq(a)));
}

/// Whether a ray holds a redex does not see a renaming of its star.
pub proof fn lemma_has_redex_renamed(phi: Seq<Seq<TermV>>, p: Seq<Seq<TermV>>, q: Seq<Seq<TermV>>)
    requires
        states_renamed(p, q),
    ensures
        forall|a: int, b: int| #[trigger] has_redex(phi, p, a, b) == has_redex(phi, q, a, b),
{
    assert forall|a: int, b: int| #[trigger] has_redex(phi, p, a, b) == has_redex(phi, q, a, b) by {
        if 0 <= a < p.len() {
            assert(star_renamed(p[a], q[a]));
            let (rho, inv) = choose|rho: Map<VarV, TermV>, inv: Map<VarV, TermV>|
                renames_on(rho, inv, tvars_seq(p[a])) && q[a] == apply_seq(p[a], rho);
            let vs = tvars_seq(p[a]);
            lemma_apply_seq(p[a], rho);
            lemma_tvars_seq(p[a]);
            if 0 <= b < p[a].len() {
                let r = p[a][b];
                assert(q[a][b] == apply(r, rho));
                lemma_matchable_renamed(r, r, rho, inv, vs);
                assert forall|x: int, y: int| #[trigger] ext_match(phi, q[a][b], x, y) == ext_match(phi, r, x, y) by {
                    if 0 <= x < phi.len() && 0 <= y < phi[x].len() {
                        lemma_matchable_renamed(r, phi[x][y], rho, inv, vs);
                    }
                }
                assert forall|k: int| #[trigger] self_match(q[a], b, k) == self_match(p[a], b, k) by {
                    if 0 <= k < p[a].len() {
                        lemma_matchable_renamed(r, p[a][k], rho, inv, vs);
                    }
                }
                if exists|x: int, y: int| ext_match(phi, q[a][b], x, y) {
                    let (x, y) = choose|x: int, y: int| ext_match(phi, q[a][b], x, y);
                    assert(ext_match(phi, r, x, y));
                }
                if exists|x: int, y: int| ext_match(phi, r, x, y) {
                    let (x, y) = choose|x: int, y: int| ext_match(phi, r, x, y);
                    assert(ext_match(phi, q[a][b], x, y));
                }
                if exists|k: int| self_match(q[a], b, k) {
                    let k = choose|k: int| self_match(q[a], b, k);
                    assert(self_match(p[a], b, k));
                }
                if exists|k: int| self_match(p[a], b, k) {
                    let k = choose|k: int| self_match(p[a], b, k);
                    assert(self_match(q[a], b, k));
                }
            }
        }
    }
}

proof fn lemma_unifiable_pair_renamed(a: TermV, b: TermV, rho: Map<VarV, TermV>, inv: Map<VarV, TermV>, vs: Set<VarV>)
    requires
        renames_on(rho, inv, vs),
        forall|x: VarV| #[trigger] tvars(a).contains(x) ==> vs.contains(x),
        forall|x: VarV| #[trigger] tvars(b).contains(x) ==> vs.contains(x),
    ensures
        unifiable(seq![(apply(a, rho), apply(b, rho))]) == unifiable(seq![(a, b)]),
{
    let e1 = seq![(apply(a, rho), apply(b, rho))];
    let e0 = seq![(a, b)];
    if unifiable(e1) {
        let th = choose|th: Map<VarV, TermV>| unifies(th, e1);
        assert(e1[0] == (apply(a, rho), apply(b, rho)));
        lemma_apply_compose(a, th, rho);
        lemma_apply_compose(b, th, rho);
        assert forall|i: int| #![trigger e0[i]] 0 <= i < e0.len() implies apply(e0[i].0, compose(th, rho)) == apply(
            e0[i].1,
            compose(th, rho),
        ) by {
            assert(i == 0);
        }
        assert(unifies(compose(th, rho), e0));
    }
    if unifiable(e0) {
        let th = choose|th: Map<VarV, TermV>| unifies(th, e0);
        assert(e0[0] == (a, b));
        lemma_renames_back(a, rho, inv, vs);
        lemma_renames_back(b, rho, inv, vs);
        lemma_apply_compose(apply(a, rho), th, inv);
        lemma_apply_compose(apply(b, rho), th, inv);
        assert forall|i: int| #![trigger e1[i]] 0 <= i < e1.len() implies apply(e1[i].0, compose(th, inv)) == apply(
            e1[i].1,
            compose(th, inv),
        ) by {
            assert(i == 0);
        }
        assert(unifies(compose(th, inv), e1));
    }
}

/// A self-interaction of a renamed star is a renaming of the self-interaction.
proof fn lemma_self_interaction_renamed(
    s: Seq<TermV>,
    j: int,
    k: int,
    rho: Map<VarV, TermV>,
    inv: Map<VarV, TermV>,
    o1: Seq<TermV>,
    o2: Seq<TermV>,
)
    requires
        renames_on(rho, inv, tvars_seq(s)),
        0 <= j < s.len(),
        0 <= k < s.len(),
        j != k,
        is_self_interaction(s, j, k, o1),
        is_self_interaction(apply_seq(s, rho), j, k, o2),
    ensures
        star_renamed(o1, o2),
{
    let vs = tvars_seq(s);
    let s2 = apply_seq(s, rho);
    lemma_apply_seq(s, rho);
    lemma_tvars_seq(s);
    let ua = underlying(s[j]);
    let ub = underlying(s[k]);
    assert forall|x: VarV| #[trigger] tvars(s[j]).contains(x) implies apply(TermV::Var(x), rho) is Var by {
        assert(vs.contains(x));
    }
    assert forall|x: VarV| #[trigger] tvars(s[k]).contains(x) implies apply(TermV::Var(x), rho) is Var by {
        assert(vs.contains(x));
    }
    crate::polarised::lemma_underlying_apply(s[j], rho);
    crate::polarised::lemma_underlying_apply(s[k], rho);
    let e = self_eq(s, j, k);
    let e2 = self_eq(s2, j, k);
    assert(e2 == seq![(apply(ua, rho), apply(ub, rho))]);
    let rest = remove_two(s, j, k);
    lemma_apply_seq(rest, rho);
    assert(remove_two(s2, j, k) =~= apply_seq(rest, rho));
    let sg = choose|sigma: Map<VarV, TermV>| is_mgu(sigma, e) && o1 == apply_seq(rest, sigma);
    let sg2 = choose|sigma: Map<VarV, TermV>| is_mgu(sigma, e2) && o2 == apply_seq(remove_two(s2, j, k), sigma);
    let tau = compose(sg2, rho);
    let kappa = compose(sg, inv);
    assert(e[0] == (ua, ub));
    assert(e2[0] == (apply(ua, rho), apply(ub, rho)));
    lemma_apply_compose(ua, sg2, rho);
    lemma_apply_compose(ub, sg2, rho);
    assert forall|i: int| #![trigger e[i]] 0 <= i < e.len() implies apply(e[i].0, tau) == apply(e[i].1, tau) by {
        assert(i == 0);
    }
    assert(unifies(tau, e));
    lemma_renames_back(ua, rho, inv, vs);
    lemma_renames_back(ub, rho, inv, vs);
    lemma_apply_compose(apply(ua, rho), sg, inv);
    lemma_apply_compose(apply(ub, rho), sg, inv);
    assert forall|i: int| #![trigger e2[i]] 0 <= i < e2.len() implies apply(e2[i].0, kappa) == apply(e2[i].1, kappa) by {
        assert(i == 0);
    }
    assert(unifies(kappa, e2));
    lemma_apply_seq(rest, sg);
    lemma_apply_seq(apply_seq(rest, rho), sg2);
    assert forall|m: int| 0 <= m < o1.len() implies #[trigger] o2[m] == apply(o1[m], tau) && apply(o2[m], kappa) == o1[m] by {
        let t = rest[m];
        assert(tvars(t).subset_of(vs)) by {
            assert(j < k || k < j);
            assert(exists|q: int| 0 <= q < s.len() && s[q] == t);
            let q = choose|q: int| 0 <= q < s.len() && s[q] == t;
            assert forall|x: VarV| tvars(t).contains(x) implies vs.contains(x) by {
                assert(tvars(s[q]).contains(x));
            }
        }
        lemma_apply_compose(t, sg2, rho);
        assert(o2[m] == apply(apply(t, rho), sg2));
        assert(apply(apply(t, sg), tau) == apply(t, tau));
        assert(apply(apply(apply(t, rho), sg2), kappa) == apply(apply(t, rho), kappa));
        lemma_apply_compose(apply(t, rho), sg, inv);
        assert forall|x: VarV| #[trigger] tvars(t).contains(x) implies vs.contains(x) by {}
        lemma_renames_back(t, rho, inv, vs);
    }
    lemma_star_renamed_of(o1, o2, tau, kappa);
}

/// Steps at the same ray of two interaction spaces whose stars are renamings
/// of each other give interaction spaces whose stars are renamings of each
/// other.
proof fn lemma_step_renamed(
    phi: Seq<Seq<TermV>>,
    p: Seq<Seq<TermV>>,
    q: Seq<Seq<TermV>>,
    i: int,
    j: int,
    o1: Seq<Seq<TermV>>,
    o2: Seq<Seq<TermV>>,
)
    requires
        states_renamed(p, q),
        0 <= i < p.len(),
        0 <= j < p[i].len(),
        step_ok(phi, p, i, j, o1),
        step_ok(phi, q, i, j, o2),
    ensures
        states_renamed(o1, o2),
{
    let (e1, l1) = choose|ext: Seq<(int, int)>, sl: Seq<int>| {
            &&& is_ext_list(phi, p[i][j], ext)
            &&& is_self_ok_list(p[i], j, sl)
            &&& o1.len() == p.remove(i).len() + ext.len() + sl.len()
            &&& o1.subrange(0, p.remove(i).len() as int) == p.remove(i)
            &&& forall|t: int|
                0 <= t < ext.len() ==> is_fusion(
                    p[i],
                    j,
                    phi[ext[t].0],
                    ext[t].1,
                    #[trigger] o1[p.remove(i).len() + t],
                )
            &&& forall|t: int|
                0 <= t < sl.len() ==> is_self_interaction(
                    p[i],
                    j,
                    sl[t],
                    #[trigger] o1[p.remove(i).len() + ext.len() + t],
                )
        };
    let (e2, l2) = choose|ext: Seq<(int, int)>, sl: Seq<int>| {
            &&& is_ext_list(phi, q[i][j], ext)
            &&& is_self_ok_list(q[i], j, sl)
            &&& o2.len() == q.remove(i).len() + ext.len() + sl.len()
            &&& o2.subrange(0, q.remove(i).len() as int) == q.remove(i)
            &&& forall|t: int|
                0 <= t < ext.len() ==> is_fusion(
                    q[i],
                    j,
                    phi[ext[t].0],
                    ext[t].1,
                    #[trigger] o2[q.remove(i).len() + t],
                )
            &&& forall|t: int|
                0 <= t < sl.len() ==> is_self_interaction(
                    q[i],
                    j,
                    sl[t],
                    #[trigger] o2[q.remove(i).len() + ext.len() + t],
                )
        };
    assert(star_renamed(p[i], q[i]));
    let (rho, inv) = choose|rho: Map<VarV, TermV>, inv: Map<VarV, TermV>|
        renames_on(rho, inv, tvars_seq(p[i])) && q[i] == apply_seq(p[i], rho);
    let vs = tvars_seq(p[i]);
    lemma_apply_seq(p[i], rho);
    lemma_tvars_seq(p[i]);
    let r = p[i][j];
    assert(q[i][j] == apply(r, rho));
    assert forall|x: int, y: int| #[trigger] ext_match(phi, q[i][j], x, y) == ext_match(phi, r, x, y) by {
        if 0 <= x < phi.len() && 0 <= y < phi[x].len() {
            lemma_matchable_renamed(r, phi[x][y], rho, inv, vs);
        }
    }
    assert forall|x: (int, int)| e1.contains(x) <==> e2.contains(x) by {
        if e1.contains(x) {
            let t = choose|t: int| 0 <= t < e1.len() && e1[t] == x;
            assert(ext_match(phi, r, e1[t].0, e1[t].1));
            assert(ext_match(phi, q[i][j], x.0, x.1));
        }
        if e2.contains(x) {
            let t = choose|t: int| 0 <= t < e2.len() && e2[t] == x;
            assert(ext_match(phi, q[i][j], e2[t].0, e2[t].1));
            assert(ext_match(phi, r, x.0, x.1));
        }
    }
    lemma_sorted_pairs_unique(e1, e2);
    assert forall|k: int| #[trigger] self_ok(q[i], j, k) == self_ok(p[i], j, k) by {
        if 0 <= k < p[i].len() {
            lemma_matchable_renamed(r, p[i][k], rho, inv, vs);
            if k != j {
                assert forall|x: VarV| #[trigger] tvars(p[i][j]).contains(x) implies apply(TermV::Var(x), rho) is Var by {
                    assert(vs.contains(x));
                }
                assert forall|x: VarV| #[trigger] tvars(p[i][k]).contains(x) implies apply(TermV::Var(x), rho) is Var by {
                    assert(vs.contains(x));
                }
                crate::polarised::lemma_underlying_apply(p[i][j], rho);
                crate::polarised::lemma_underlying_apply(p[i][k], rho);
                assert(self_eq(q[i], j, k) == seq![(apply(underlying(p[i][j]), rho), apply(underlying(p[i][k]), rho))]);
                lemma_unifiable_pair_renamed(underlying(p[i][j]), underlying(p[i][k]), rho, inv, vs);
            }
        }
    }
    assert forall|x: int| l1.contains(x) <==> l2.contains(x) by {
        if l1.contains(x) {
            let t = choose|t: int| 0 <= t < l1.len() && l1[t] == x;
            assert(self_ok(p[i], j, l1[t]));
            assert(self_ok(q[i], j, x));
        }
        if l2.contains(x) {
            let t = choose|t: int| 0 <= t < l2.len() && l2[t] == x;
            assert(self_ok(q[i], j, l2[t]));
            assert(self_ok(p[i], j, x));
        }
    }
    lemma_sorted_ints_unique(l1, l2);
    lemma_canonical_renaming_invariant(p[i], rho, inv, true);
    assert(renamed_star(q[i], true) =~= renamed_star(p[i], true));
    let n = p.len() - 1;
    assert(p.remove(i).len() == n && q.remove(i).len() == n);
    assert forall|k: int| 0 <= k < o1.len() implies star_renamed(#[trigger] o1[k], o2[k]) by {
        if k < n {
            assert(o1.subrange(0, n)[k] == p.remove(i)[k]);
            assert(o2.subrange(0, n)[k] == q.remove(i)[k]);
            if k < i {
                assert(p.remove(i)[k] == p[k] && q.remove(i)[k] == q[k]);
            } else {
                assert(p.remove(i)[k] == p[k + 1] && q.remove(i)[k] == q[k + 1]);
            }
        } else if k < n + e1.len() {
            let t = k - n;
            let es = fusion_eq(p[i], j, phi[e1[t].0], e1[t].1);
            let rest = fusion_rest(p[i], j, phi[e1[t].0], e1[t].1);
            assert(fusion_eq(q[i], j, phi[e1[t].0], e1[t].1) == es);
            assert(fusion_rest(q[i], j, phi[e1[t].0], e1[t].1) == rest);
            assert(o1[n + t] == o1[k]);
            assert(is_fusion(p[i], j, phi[e1[t].0], e1[t].1, o1[k]));
            assert(is_fusion(q[i], j, phi[e2[t].0], e2[t].1, o2[k]));
            let a = choose|sigma: Map<VarV, TermV>| is_mgu(sigma, es) && o1[k] == apply_seq(rest, sigma);
            let b = choose|sigma: Map<VarV, TermV>| is_mgu(sigma, es) && o2[k] == apply_seq(rest, sigma);
            lemma_mgu_images_renamed(rest, es, a, b);
        } else {
            let t = k - n - e1.len();
            assert(o1[n + e1.len() + t] == o1[k]);
            assert(is_self_interaction(p[i], j, l1[t], o1[k]));
            assert(is_self_interaction(q[i], j, l2[t], o2[k]));
            assert(self_ok(p[i], j, l1[t]));
            lemma_self_interaction_renamed(p[i], j, l1[t], rho, inv, o1[k], o2[k]);
        }
    }
}

proof fn lemma_runs_renamed_at(
    phi: Seq<Seq<TermV>>,
    r1: Seq<Seq<Seq<TermV>>>,
    r2: Seq<Seq<Seq<TermV>>>,
    k: int,
)
    requires
        iex_run(phi, r1),
        iex_run(phi, r2),
        r1.len() > 0,
        r2.len() > 0,
        r1[0] == r2[0],
        0 <= k < r1.len(),
        k < r2.len(),
    ensures
        states_renamed(r1[k], r2[k]),
    decreases k,
{
    if k == 0 {
        assert forall|a: int| 0 <= a < r1[0].len() implies star_renamed(#[trigger] r1[0][a], r2[0][a]) by {
            lemma_star_renamed_self(r1[0][a]);
        }
    } else {
        lemma_runs_renamed_at(phi, r1, r2, k - 1);
        let p = r1[k - 1];
        let q = r2[k - 1];
        let m = k - 1;
        assert(first_step(phi, r1[m], r1[m + 1]));
        assert(first_step(phi, r2[m], r2[m + 1]));
        assert(r1[m + 1] == r1[k] && r2[m + 1] == r2[k]);
        let (i1, j1) = choose|i: int, j: int| is_first_redex(phi, p, i, j) && step_ok(phi, p, i, j, r1[k]);
        let (i2, j2) = choose|i: int, j: int| is_first_redex(phi, q, i, j) && step_ok(phi, q, i, j, r2[k]);
        lemma_has_redex_renamed(phi, p, q);
        assert(has_redex(phi, q, i1, j1));
        assert forall|a: int, b: int| lex_lt((a, b), (i1, j1)) implies !#[trigger] has_redex(phi, q, a, b) by {
            assert(!has_redex(phi, p, a, b));
        }
        assert(is_first_redex(phi, q, i1, j1));
        lemma_first_redex_unique(phi, q, i1, j1, i2, j2);
        lemma_step_renamed(phi, p, q, i1, j1, r1[k], r2[k]);
    }
}

/// Interactive execution is determined up to renaming: two results of `IEx`
/// from the same `Φ`, `Ψ` and fuel (whichever unifiers their steps took)
/// took the same number of steps, agree on reaching a normal form, and hold
/// as many stars, each α-equivalent to the star at the same place in the
/// other.
pub proof fn lemma_iex_alpha_unique(
    phi: Seq<Seq<TermV>>,
    psi0: Seq<Seq<TermV>>,
    fuel: nat,
    out1: Seq<Seq<TermV>>,
    nf1: bool,
    n1: nat,
    out2: Seq<Seq<TermV>>,
    nf2: bool,
    n2: nat,
)
    requires
        iex_post(phi, psi0, fuel, out1, nf1, n1),
        iex_post(phi, psi0, fuel, out2, nf2, n2),
    ensures
        n1 == n2,
        nf1 == nf2,
        out1.len() == out2.len(),
        forall|k: int| 0 <= k < out1.len() ==> alpha_equiv(#[trigger] out1[k], out2[k]),
{
    let r1 = choose|states: Seq<Seq<Seq<TermV>>>|
        {
            &&& states.len() == n1 + 1
            &&& states[0] == psi0
            &&& states[n1 as int] == out1
            &&& iex_run(phi, states)
        };
    let r2 = choose|states: Seq<Seq<Seq<TermV>>>|
        {
            &&& states.len() == n2 + 1
            &&& states[0] == psi0
            &&& states[n2 as int] == out2
            &&& iex_run(phi, states)
        };
    if n1 < n2 {
        lemma_runs_renamed_at(phi, r1, r2, n1 as int);
        lemma_has_redex_renamed(phi, r1[n1 as int], r2[n1 as int]);
        assert(first_step(phi, r2[n1 as int], r2[n1 + 1int]));
        let (i, j) = choose|i: int, j: int| is_first_redex(phi, r2[n1 as int], i, j) && step_ok(phi, r2[n1 as int], i, j, r2[n1 + 1int]);
        assert(has_redex(phi, r1[n1 as int], i, j));
        assert(false);
    }
    if n2 < n1 {
        lemma_runs_renamed_at(phi, r1, r2, n2 as int);
        lemma_has_redex_renamed(phi, r1[n2 as int], r2[n2 as int]);
        assert(first_step(phi, r1[n2 as int], r1[n2 + 1int]));
        let (i, j) = choose|i: int, j: int| is_first_redex(phi, r1[n2 as int], i, j) && step_ok(phi, r1[n2 as int], i, j, r1[n2 + 1int]);
        assert(has_redex(phi, r2[n2 as int], i, j));
        assert(false);
    }
    lemma_runs_renamed_at(phi, r1, r2, n1 as int);
    assert(r1[n1 as int] == out1 && r2[n1 as int] == out2);
    lemma_has_redex_renamed(phi, out1, out2);
    if is_nf(phi, out1) {
        assert forall|a: int, b: int| !#[trigger] has_redex(phi, out2, a, b) by {
            assert(!has_redex(phi, out1, a, b));
        }
    }
    if is_nf(phi, out2) {
        assert forall|a: int, b: int| !#[trigger] has_redex(phi, out1, a, b) by {
            assert(!has_redex(phi, out2, a, b));
        }
    }
    assert(is_nf(phi, out1) == is_nf(phi, out2));
    assert forall|k: int| 0 <= k < out1.len() implies alpha_equiv(#[trigger] out1[k], out2[k]) by {
        lemma_star_renamed_alpha(out1[k], out2[k]);
    }
}

proof fn lemma_visible_star_renamed(a: Seq<TermV>, b: Seq<TermV>)
    requires
        star_renamed(a, b),
    ensures
        visible_star(a) == visible_star(b),
{
    let (rho, inv) = choose|rho: Map<VarV, TermV>, inv: Map<VarV, TermV>|
        renames_on(rho, inv, tvars_seq(a)) && b == apply_seq(a, rho);
    lemma_apply_seq(a, rho);
    lemma_tvars_seq(a);
    assert(b.len() == a.len());
    assert forall|k: int| 0 <= k < a.len() implies head_pol(#[trigger] b[k]) == head_pol(a[k]) by {
        lemma_matchable_renamed(a[k], a[k], rho, inv, tvars_seq(a));
    }
    if visible_star(a) {
        assert forall|k: int| 0 <= k < b.len() implies head_pol(#[trigger] b[k]) == Polarity::Neutral by {
            assert(head_pol(b[k]) == head_pol(a[k]));
        }
    }
    if visible_star(b) {
        assert forall|k: int| 0 <= k < a.len() implies head_pol(#[trigger] a[k]) == Polarity::Neutral by {
            assert(head_pol(b[k]) == head_pol(a[k]));
        }
    }
}

proof fn lemma_visible_renamed(p: Seq<Seq<TermV>>, q: Seq<Seq<TermV>>)
    requires
        states_renamed(p, q),
    ensures
        states_renamed(visible(p), visible(q)),
    decreases p.len(),
{
    if p.len() > 0 {
        let pd = p.drop_last();
        let qd = q.drop_last();
        assert forall|k: int| 0 <= k < pd.len() implies star_renamed(#[trigger] pd[k], qd[k]) by {
            assert(star_renamed(p[k], q[k]));
        }
        lemma_visible_renamed(pd, qd);
        assert(star_renamed(p[p.len() - 1], q[q.len() - 1]));
        lemma_visible_star_renamed(p.last(), q.last());
        reveal_with_fuel(Seq::<Seq<TermV>>::filter, 1);
        assert(visible(p) == if visible_star(p.last()) {
            visible(pd).push(p.last())
        } else {
            visible(pd)
        });
        assert(visible(q) == if visible_star(q.last()) {
            visible(qd).push(q.last())
        } else {
            visible(qd)
        });
        let vp = visible(p);
        let vq = visible(q);
        assert forall|k: int| 0 <= k < vp.len() implies star_renamed(#[trigger] vp[k], vq[k]) by {
            if k < visible(pd).len() {
                assert(vp[k] == visible(pd)[k]);
                assert(vq[k] == visible(qd)[k]);
            }
        }
    } else {
        assert(visible(p) =~= p);
        assert(visible(q) =~= q);
    }
}

/// The visible answers of two results of `IEx` from the same `Φ`, `Ψ` and
/// fuel agree up to renaming: as many stars, each α-equivalent to the star
/// at the same place in the other.
pub proof fn lemma_iex_visible_alpha_unique(
    phi: Seq<Seq<TermV>>,
    psi0: Seq<Seq<TermV>>,
    fuel: nat,
    out1: Seq<Seq<TermV>>,
    nf1: bool,
    n1: nat,
    out2: Seq<Seq<TermV>>,
    nf2: bool,
    n2: nat,
)
    requires
        iex_post(phi, psi0, fuel, out1, nf1, n1),
        iex_post(phi, psi0, fuel, out2, nf2, n2),
    ensures
        visible(out1).len() == visible(out2).len(),
        forall|k: int| 0 <= k < visible(out1).len() ==> alpha_equiv(#[trigger] visible(out1)[k], visible(out2)[k]),
{
    let r1 = choose|states: Seq<Seq<Seq<TermV>>>|
        {
            &&& states.len() == n1 + 1
            &&& states[0] == psi0
            &&& states[n1 as int] == out1
            &&& iex_run(phi, states)
        };
    let r2 = choose|states: Seq<Seq<Seq<TermV>>>|
        {
            &&& states.len() == n2 + 1
            &&& states[0] == psi0
            &&& states[n2 as int] == out2
            &&& iex_run(phi, states)
        };
    lemma_iex_alpha_unique(phi, psi0, fuel, out1, nf1, n1, out2, nf2, n2);
    lemma_runs_renamed_at(phi, r1, r2, n1 as int);
    assert(r1[n1 as int] == out1 && r2[n1 as int] == out2);
    lemma_visible_renamed(out1, out2);
    assert forall|k: int| 0 <= k < visible(out1).len() implies alpha_equiv(#[trigger] visible(out1)[k], visible(out2)[k]) by {
        lemma_star_renamed_alpha(visible(out1)[k], visible(out2)[k]);
    }
}

} // verus!
