//! Renaming apart and α-unification (§49.26–§49.30).
//!
//! Two terms are α-unifiable when they become equal under two *independent*
//! substitutions, one for each side; equivalently, when they unify after
//! their variables are renamed apart. Renaming apart maps the i-th distinct
//! variable of the left term (in order of first occurrence) to `Left(i)` and
//! that of the right term to `Right(i)`, so the two sides never share a
//! variable.
use vstd::prelude::*;
use crate::term::{
    lemma_tvars_seq, lemma_views_of, tvars, tvars_seq, views_of, Term, TermV, Var, VarV,
};
use crate::subst::{
    apply, apply_seq, compose, lemma_apply_agree, lemma_apply_compose, lemma_apply_id,
    lemma_apply_seq, lemma_pairs_map_absent, lemma_pairs_map_last, pairs_map, bindings_view, Substitution,
};
use crate::unify::{equations_view, is_mgu, unifiable, unifies, unify, Equation};

verus! {

broadcast use vstd::std_specs::vec::group_vec_axioms;

/// No element occurs twice.
pub open spec fn no_dup<A>(s: Seq<A>) -> bool {
    forall|i: int, j: int| 0 <= i < j < s.len() ==> s[i] != s[j]
}

/// Extend `acc` with the variables of `t` it lacks, in order of first occurrence.
pub open spec fn add_vars(acc: Seq<VarV>, t: TermV) -> Seq<VarV>
    decreases t,
{
    match t {
        TermV::Var(x) => if acc.contains(x) {
            acc
        } else {
            acc.push(x)
        },
        TermV::App(_, _, args) => add_vars_seq(acc, args),
    }
}

pub open spec fn add_vars_seq(acc: Seq<VarV>, ts: Seq<TermV>) -> Seq<VarV>
    decreases ts,
{
    if ts.len() == 0 {
        acc
    } else {
        add_vars(add_vars_seq(acc, ts.drop_last()), ts.last())
    }
}

/// The distinct variables of a list of terms, in order of first occurrence.
pub open spec fn seq_vars(ts: Seq<TermV>) -> Seq<VarV> {
    add_vars_seq(Seq::empty(), ts)
}

/// The distinct variables of a term, in order of first occurrence.
pub open spec fn term_vars(t: TermV) -> Seq<VarV> {
    add_vars(Seq::empty(), t)
}

pub proof fn lemma_add_vars(acc: Seq<VarV>, t: TermV)
    ensures
        add_vars(acc, t).len() >= acc.len(),
        add_vars(acc, t).subrange(0, acc.len() as int) == acc,
        no_dup(acc) ==> no_dup(add_vars(acc, t)),
        forall|x: VarV| #[trigger]
            add_vars(acc, t).contains(x) <==> (acc.contains(x) || tvars(t).contains(x)),
    decreases t,
{
    match t {
        TermV::Var(y) => {
            assert(acc.push(y).subrange(0, acc.len() as int) =~= acc);
            assert(acc.subrange(0, acc.len() as int) =~= acc);
            if !acc.contains(y) {
                assert forall|x: VarV| #[trigger] acc.push(y).contains(x) <==> (acc.contains(x)
                    || x == y) by {
                    if acc.push(y).contains(x) {
                        let i = choose|i: int| 0 <= i < acc.push(y).len() && acc.push(y)[i] == x;
                        if i < acc.len() {
                            assert(acc[i] == x);
                        }
                    }
                    if acc.contains(x) {
                        let i = choose|i: int| 0 <= i < acc.len() && acc[i] == x;
                        assert(acc.push(y)[i] == x);
                    }
                    if x == y {
                        assert(acc.push(y)[acc.len() as int] == y);
                    }
                }
            }
        },
        TermV::App(_, _, args) => {
            lemma_add_vars_seq(acc, args);
        },
    }
}

pub proof fn lemma_add_vars_seq(acc: Seq<VarV>, ts: Seq<TermV>)
    ensures
        add_vars_seq(acc, ts).len() >= acc.len(),
        add_vars_seq(acc, ts).subrange(0, acc.len() as int) == acc,
        no_dup(acc) ==> no_dup(add_vars_seq(acc, ts)),
        forall|x: VarV| #[trigger]
            add_vars_seq(acc, ts).contains(x) <==> (acc.contains(x) || tvars_seq(ts).contains(x)),
    decreases ts,
{
    if ts.len() == 0 {
        assert(acc.subrange(0, acc.len() as int) =~= acc);
    } else {
        let mid = add_vars_seq(acc, ts.drop_last());
        lemma_add_vars_seq(acc, ts.drop_last());
        lemma_add_vars(mid, ts.last());
        let r = add_vars(mid, ts.last());
        assert(r.subrange(0, acc.len() as int) =~= r.subrange(0, mid.len() as int).subrange(
            0,
            acc.len() as int,
        ));
    }
}

/// The renaming sending the i-th listed variable to `Left(i)` (or `Right(i)`).
pub open spec fn ren_pairs(vs: Seq<VarV>, left: bool) -> Seq<(VarV, TermV)> {
    Seq::new(
        vs.len(),
        |i: int|
            (vs[i], TermV::Var(
                if left {
                    VarV::Left(i as nat)
                } else {
                    VarV::Right(i as nat)
                },
            )),
    )
}

pub open spec fn renaming(vs: Seq<VarV>, left: bool) -> Map<VarV, TermV> {
    pairs_map(ren_pairs(vs, left))
}

pub open spec fn side_var(i: nat, left: bool) -> VarV {
    if left {
        VarV::Left(i)
    } else {
        VarV::Right(i)
    }
}

pub proof fn lemma_renaming(vs: Seq<VarV>, left: bool)
    requires
        no_dup(vs),
    ensures
        forall|i: int|
            0 <= i < vs.len() ==> #[trigger] renaming(vs, left).contains_key(vs[i]) && renaming(
                vs,
                left,
            )[vs[i]] == TermV::Var(side_var(i as nat, left)),
        forall|x: VarV| !vs.contains(x) ==> !#[trigger] renaming(vs, left).contains_key(x),
        forall|x: VarV| #[trigger]
            renaming(vs, left).contains_key(x) ==> renaming(vs, left)[x] is Var,
{
    let ps = ren_pairs(vs, left);
    assert forall|i: int| 0 <= i < vs.len() implies #[trigger] renaming(vs, left).contains_key(
        vs[i],
    ) && renaming(vs, left)[vs[i]] == TermV::Var(side_var(i as nat, left)) by {
        assert(ps[i].0 == vs[i]);
        assert forall|j: int| i < j < ps.len() implies ps[j].0 != vs[i] by {
            assert(ps[j].0 == vs[j]);
        }
        lemma_pairs_map_last(ps, i, vs[i]);
    }
    assert forall|x: VarV| !vs.contains(x) implies !#[trigger] renaming(vs, left).contains_key(
        x,
    ) by {
        assert forall|j: int| 0 <= j < ps.len() implies ps[j].0 != x by {
            assert(ps[j].0 == vs[j]);
        }
        lemma_pairs_map_absent(ps, x);
    }
    assert forall|x: VarV| #[trigger] renaming(vs, left).contains_key(x) implies renaming(
        vs,
        left,
    )[x] is Var by {
        if vs.contains(x) {
            let i = choose|i: int| 0 <= i < vs.len() && vs[i] == x;
        }
    }
}

/// `a` and `b` become equal under two independent substitutions.
pub open spec fn alpha_unifiable(a: TermV, b: TermV) -> bool {
    exists|t1: Map<VarV, TermV>, t2: Map<VarV, TermV>| #[trigger] apply(a, t1) == #[trigger] apply(b, t2)
}

/// The single equation between two renamed-apart terms.
pub open spec fn renamed_eq(a: TermV, va: Seq<VarV>, b: TermV, vb: Seq<VarV>) -> Seq<(TermV, TermV)> {
    seq![(apply(a, renaming(va, true)), apply(b, renaming(vb, false)))]
}

/// α-unifiability is unifiability after renaming apart.
pub proof fn lemma_alpha_iff(a: TermV, va: Seq<VarV>, b: TermV, vb: Seq<VarV>)
    requires
        no_dup(va),
        no_dup(vb),
        forall|x: VarV| tvars(a).contains(x) ==> va.contains(x),
        forall|x: VarV| tvars(b).contains(x) ==> vb.contains(x),
    ensures
        unifiable(renamed_eq(a, va, b, vb)) <==> alpha_unifiable(a, b),
{
    let rl = renaming(va, true);
    let rr = renaming(vb, false);
    let e = renamed_eq(a, va, b, vb);
    lemma_renaming(va, true);
    lemma_renaming(vb, false);
    if unifiable(e) {
        let theta = choose|theta: Map<VarV, TermV>| unifies(theta, e);
        assert(e[0] == (apply(a, rl), apply(b, rr)));
        lemma_apply_compose(a, theta, rl);
        lemma_apply_compose(b, theta, rr);
        assert(apply(a, compose(theta, rl)) == apply(b, compose(theta, rr)));
    }
    if alpha_unifiable(a, b) {
        let (t1, t2) = choose|t1: Map<VarV, TermV>, t2: Map<VarV, TermV>|
            #[trigger] apply(a, t1) == #[trigger] apply(b, t2);
        let theta = Map::new(
            |v: VarV|
                match v {
                    VarV::Left(i) => i < va.len(),
                    VarV::Right(j) => j < vb.len(),
                    VarV::Named(_) => false,
                },
            |v: VarV|
                match v {
                    VarV::Left(i) => apply(TermV::Var(va[i as int]), t1),
                    VarV::Right(j) => apply(TermV::Var(vb[j as int]), t2),
                    VarV::Named(_) => TermV::Var(v),
                },
        );
        lemma_apply_compose(a, theta, rl);
        lemma_apply_compose(b, theta, rr);
        assert forall|x: VarV| #[trigger] tvars(a).contains(x) implies apply(
            TermV::Var(x),
            compose(theta, rl),
        ) == apply(TermV::Var(x), t1) by {
            assert(va.contains(x));
            let i = choose|i: int| 0 <= i < va.len() && va[i] == x;
            assert(rl[va[i]] == TermV::Var(VarV::Left(i as nat)));
        }
        assert forall|x: VarV| #[trigger] tvars(b).contains(x) implies apply(
            TermV::Var(x),
            compose(theta, rr),
        ) == apply(TermV::Var(x), t2) by {
            assert(vb.contains(x));
            let i = choose|i: int| 0 <= i < vb.len() && vb[i] == x;
            assert(rr[vb[i]] == TermV::Var(VarV::Right(i as nat)));
        }
        lemma_apply_agree(a, compose(theta, rl), t1);
        lemma_apply_agree(b, compose(theta, rr), t2);
        assert(unifies(theta, e));
    }
}

/// α-unifiability is symmetric.
pub proof fn lemma_alpha_unifiable_symmetric(a: TermV, b: TermV)
    ensures
        alpha_unifiable(a, b) == alpha_unifiable(b, a),
{
    if alpha_unifiable(a, b) {
        let (t1, t2) = choose|t1: Map<VarV, TermV>, t2: Map<VarV, TermV>|
            #[trigger] apply(a, t1) == #[trigger] apply(b, t2);
        assert(apply(b, t2) == apply(a, t1));
    }
    if alpha_unifiable(b, a) {
        let (t1, t2) = choose|t1: Map<VarV, TermV>, t2: Map<VarV, TermV>|
            #[trigger] apply(b, t1) == #[trigger] apply(a, t2);
        assert(apply(a, t2) == apply(b, t1));
    }
}

// ─────────────────────────────────────────────────────────────────────────
// Executable renaming apart
// ─────────────────────────────────────────────────────────────────────────

pub open spec fn var_views(vs: Seq<Var>) -> Seq<VarV> {
    Seq::new(vs.len(), |i: int| vs[i]@)
}

pub(crate) fn contains_var(vs: &Vec<Var>, x: &Var) -> (r: bool)
    ensures
        r == var_views(vs@).contains(x@),
{
    let mut i: usize = 0;
    while i < vs.len()
        invariant
            i <= vs.len(),
            forall|k: int| 0 <= k < i ==> vs[k]@ != x@,
        decreases vs.len() - i,
    {
        if vs[i].same(x) {
            proof {
                assert(var_views(vs@)[i as int] == x@);
            }
            return true;
        }
        i += 1;
    }
    false
}

/// Append to `acc` the variables of `t` it lacks, in order of first occurrence.
pub fn collect_vars(t: &Term, acc: &mut Vec<Var>)
    ensures
        var_views(final(acc)@) == add_vars(var_views(old(acc)@), t@),
    decreases t,
{
    match t {
        Term::Var(x) => {
            let ghost before = var_views(acc@);
            if !contains_var(acc, x) {
                acc.push(x.dup());
                proof {
                    assert(var_views(acc@) =~= before.push(x@));
                }
            }
        },
        Term::App(_, args) => {
            let ghost start = var_views(acc@);
            let mut i: usize = 0;
            proof {
                lemma_views_of(args@);
                assert(views_of(args@).subrange(0, 0).len() == 0);
                assert(add_vars_seq(start, views_of(args@).subrange(0, 0)) == start);
            }
            #[verifier::loop_isolation(false)]
            while i < args.len()
                invariant
                    i <= args.len(),
                    var_views(acc@) == add_vars_seq(start, views_of(args@).subrange(0, i as int)),
                decreases args.len() - i,
            {
                proof {
                    assert(decreases_to!(args => args[i as int]));
                }
                collect_vars(&args[i], acc);
                proof {
                    let s = views_of(args@).subrange(0, i + 1);
                    assert(s.drop_last() =~= views_of(args@).subrange(0, i as int));
                    assert(s.last() == args[i as int]@);
                }
                i += 1;
            }
            proof {
                assert(views_of(args@).subrange(0, i as int) =~= views_of(args@));
            }
        },
    }
}

/// The distinct variables of a list of terms, in order of first occurrence.
pub fn star_var_list(ts: &Vec<Term>) -> (r: Vec<Var>)
    ensures
        var_views(r@) == seq_vars(views_of(ts@)),
{
    let mut acc: Vec<Var> = Vec::new();
    let mut i: usize = 0;
    proof {
        lemma_views_of(ts@);
        assert(var_views(acc@) =~= Seq::<VarV>::empty());
    }
    while i < ts.len()
        invariant
            i <= ts.len(),
            views_of(ts@).len() == ts.len(),
            forall|k: int| 0 <= k < ts.len() ==> views_of(ts@)[k] == ts[k]@,
            var_views(acc@) == add_vars_seq(Seq::empty(), views_of(ts@).subrange(0, i as int)),
        decreases ts.len() - i,
    {
        collect_vars(&ts[i], &mut acc);
        proof {
            let s = views_of(ts@).subrange(0, i + 1);
            assert(s.drop_last() =~= views_of(ts@).subrange(0, i as int));
            assert(s.last() == ts[i as int]@);
        }
        i += 1;
    }
    proof {
        assert(views_of(ts@).subrange(0, i as int) =~= views_of(ts@));
    }
    acc
}

/// The renaming of the listed variables to one side's fresh variables.
pub fn renaming_of(vs: &Vec<Var>, left: bool) -> (r: Substitution)
    ensures
        r@ == renaming(var_views(vs@), left),
{
    let mut pairs: Vec<(Var, Term)> = Vec::new();
    let mut i: usize = 0;
    while i < vs.len()
        invariant
            i <= vs.len(),
            pairs.len() == i,
            forall|k: int|
                0 <= k < i ==> #[trigger] pairs[k].0@ == vs[k]@ && pairs[k].1@ == TermV::Var(
                    side_var(k as nat, left),
                ),
        decreases vs.len() - i,
    {
        let v = if left {
            Var::Left(i)
        } else {
            Var::Right(i)
        };
        let t = Term::Var(v);
        proof {
            assert(t@ == TermV::Var(side_var(i as nat, left)));
        }
        pairs.push((vs[i].dup(), t));
        i += 1;
    }
    proof {
        assert(bindings_view(pairs@) =~= ren_pairs(var_views(vs@), left));
    }
    Substitution { pairs }
}

/// α-unification (§B.1.13): rename the two terms apart, then unify.
///
/// Returns `Some(σ)` exactly when the terms are α-unifiable; `σ` is then a
/// most general unifier of the renamed-apart pair.
pub fn alpha_unify(t1: Term, t2: Term) -> (r: Option<Substitution>)
    ensures
        r is Some <==> alpha_unifiable(t1@, t2@),
        r is Some ==> is_mgu(r.unwrap()@, renamed_eq(t1@, term_vars(t1@), t2@, term_vars(t2@))),
{
    let mut va: Vec<Var> = Vec::new();
    collect_vars(&t1, &mut va);
    let mut vb: Vec<Var> = Vec::new();
    collect_vars(&t2, &mut vb);
    proof {
        assert(var_views(Seq::<Var>::empty()) =~= Seq::<VarV>::empty());
        lemma_add_vars(Seq::empty(), t1@);
        lemma_add_vars(Seq::empty(), t2@);
        lemma_alpha_iff(t1@, term_vars(t1@), t2@, term_vars(t2@));
    }
    let rl = renaming_of(&va, true);
    let rr = renaming_of(&vb, false);
    let l = rl.apply(&t1);
    let r = rr.apply(&t2);
    let mut eqs: Vec<Equation> = Vec::new();
    eqs.push(Equation::new(l, r));
    proof {
        assert(equations_view(eqs@) =~= renamed_eq(t1@, term_vars(t1@), t2@, term_vars(t2@)));
    }
    unify(eqs)
}

impl Term {
    /// The distinct variables of the term, in order of first occurrence.
    pub fn vars(&self) -> (r: Vec<Var>)
        ensures
            var_views(r@) == term_vars(self@),
            no_dup(var_views(r@)),
            forall|x: VarV| var_views(r@).contains(x) <==> tvars(self@).contains(x),
    {
        let mut acc: Vec<Var> = Vec::new();
        proof {
            assert(var_views(acc@) =~= Seq::<VarV>::empty());
            lemma_add_vars(Seq::empty(), self@);
        }
        collect_vars(self, &mut acc);
        acc
    }
}

// ─────────────────────────────────────────────────────────────────────────
// Renamings of variables
// ─────────────────────────────────────────────────────────────────────────

/// `rho` renames the variables of `vs`: it sends each to a variable, which
/// `inv` sends back.
pub open spec fn renames_on(rho: Map<VarV, TermV>, inv: Map<VarV, TermV>, vs: Set<VarV>) -> bool {
    forall|y: VarV| #[trigger]
        vs.contains(y) ==> apply(TermV::Var(y), rho) is Var && apply(apply(TermV::Var(y), rho), inv)
            == TermV::Var(y)
}

/// The variable that `rho` sends `y` to.
pub open spec fn ren_var(rho: Map<VarV, TermV>, y: VarV) -> VarV {
    apply(TermV::Var(y), rho)->Var_0
}

pub open spec fn ren_vars(rho: Map<VarV, TermV>, acc: Seq<VarV>) -> Seq<VarV> {
    acc.map_values(|y: VarV| ren_var(rho, y))
}

pub open spec fn all_in(acc: Seq<VarV>, vs: Set<VarV>) -> bool {
    forall|i: int| 0 <= i < acc.len() ==> vs.contains(#[trigger] acc[i])
}

proof fn lemma_ren_var_injective(rho: Map<VarV, TermV>, inv: Map<VarV, TermV>, vs: Set<VarV>, a: VarV, b: VarV)
    requires
        renames_on(rho, inv, vs),
        vs.contains(a),
        vs.contains(b),
        ren_var(rho, a) == ren_var(rho, b),
    ensures
        a == b,
{
    assert(apply(TermV::Var(a), rho) == TermV::Var(ren_var(rho, a)));
    assert(apply(TermV::Var(b), rho) == TermV::Var(ren_var(rho, b)));
}

proof fn lemma_ren_vars_contains(rho: Map<VarV, TermV>, inv: Map<VarV, TermV>, vs: Set<VarV>, acc: Seq<VarV>, x: VarV)
    requires
        renames_on(rho, inv, vs),
        all_in(acc, vs),
        vs.contains(x),
    ensures
        ren_vars(rho, acc).contains(ren_var(rho, x)) <==> acc.contains(x),
{
    if acc.contains(x) {
        let i = choose|i: int| 0 <= i < acc.len() && acc[i] == x;
        assert(ren_vars(rho, acc)[i] == ren_var(rho, x));
    }
    if ren_vars(rho, acc).contains(ren_var(rho, x)) {
        let i = choose|i: int| 0 <= i < acc.len() && ren_vars(rho, acc)[i] == ren_var(rho, x);
        lemma_ren_var_injective(rho, inv, vs, acc[i], x);
    }
}

proof fn lemma_add_vars_renamed(acc: Seq<VarV>, t: TermV, rho: Map<VarV, TermV>, inv: Map<VarV, TermV>, vs: Set<VarV>)
    requires
        renames_on(rho, inv, vs),
        all_in(acc, vs),
        forall|x: VarV| #[trigger] tvars(t).contains(x) ==> vs.contains(x),
    ensures
        add_vars(ren_vars(rho, acc), apply(t, rho)) == ren_vars(rho, add_vars(acc, t)),
    decreases t,
{
    match t {
        TermV::Var(x) => {
            assert(tvars(t).contains(x));
            assert(apply(t, rho) == TermV::Var(ren_var(rho, x)));
            lemma_ren_vars_contains(rho, inv, vs, acc, x);
            assert(ren_vars(rho, acc.push(x)) =~= ren_vars(rho, acc).push(ren_var(rho, x)));
        },
        TermV::App(f, p, args) => {
            lemma_tvars_seq(args);
            assert forall|k: int, x: VarV| 0 <= k < args.len() && #[trigger] tvars(args[k]).contains(x) implies vs.contains(x) by {
                assert(tvars_seq(args).contains(x));
                assert(tvars(t) == tvars_seq(args));
                assert(tvars(t).contains(x));
            }
            lemma_add_vars_seq_renamed(acc, args, rho, inv, vs);
        },
    }
}

proof fn lemma_add_vars_seq_renamed(
    acc: Seq<VarV>,
    ts: Seq<TermV>,
    rho: Map<VarV, TermV>,
    inv: Map<VarV, TermV>,
    vs: Set<VarV>,
)
    requires
        renames_on(rho, inv, vs),
        all_in(acc, vs),
        forall|k: int, x: VarV| 0 <= k < ts.len() && #[trigger] tvars(ts[k]).contains(x) ==> vs.contains(x),
    ensures
        add_vars_seq(ren_vars(rho, acc), apply_seq(ts, rho)) == ren_vars(rho, add_vars_seq(acc, ts)),
    decreases ts,
{
    if ts.len() == 0 {
        assert(apply_seq(ts, rho) =~= Seq::<TermV>::empty());
    } else {
        let init = ts.drop_last();
        let mid = add_vars_seq(acc, init);
        lemma_add_vars_seq_renamed(acc, init, rho, inv, vs);
        lemma_add_vars_seq(acc, init);
        lemma_tvars_seq(init);
        assert forall|i: int| 0 <= i < mid.len() implies vs.contains(#[trigger] mid[i]) by {
            assert(mid.contains(mid[i]));
            if !acc.contains(mid[i]) {
                assert(tvars_seq(init).contains(mid[i]));
                let k = choose|k: int| 0 <= k < init.len() && tvars(init[k]).contains(mid[i]);
                assert(init[k] == ts[k]);
            } else {
                let q = choose|q: int| 0 <= q < acc.len() && acc[q] == mid[i];
            }
        }
        assert forall|x: VarV| #[trigger] tvars(ts.last()).contains(x) implies vs.contains(x) by {
            assert(tvars(ts[ts.len() - 1]).contains(x));
        }
        lemma_add_vars_renamed(mid, ts.last(), rho, inv, vs);
        let a = apply_seq(ts, rho);
        assert(a.drop_last() =~= apply_seq(init, rho));
        assert(a.last() == apply(ts.last(), rho));
    }
}

/// Renaming the variables of a star does not change its canonical renaming.
pub proof fn lemma_canonical_renaming_invariant(
    a: Seq<TermV>,
    rho: Map<VarV, TermV>,
    inv: Map<VarV, TermV>,
    left: bool,
)
    requires
        renames_on(rho, inv, tvars_seq(a)),
    ensures
        ({
            let b = apply_seq(a, rho);
            &&& b.len() == a.len()
            &&& forall|k: int|
                0 <= k < a.len() ==> #[trigger] apply(b[k], renaming(seq_vars(b), left)) == apply(
                    a[k],
                    renaming(seq_vars(a), left),
                )
        }),
{
    let vset = tvars_seq(a);
    let b = apply_seq(a, rho);
    lemma_apply_seq(a, rho);
    lemma_tvars_seq(a);
    let empty = Seq::<VarV>::empty();
    assert(ren_vars(rho, empty) =~= empty);
    lemma_add_vars_seq_renamed(empty, a, rho, inv, vset);
    let va = seq_vars(a);
    let vb = seq_vars(b);
    assert(vb == ren_vars(rho, va));
    lemma_add_vars_seq(empty, a);
    assert(no_dup(empty));
    assert forall|i: int| 0 <= i < va.len() implies vset.contains(#[trigger] va[i]) by {
        assert(va.contains(va[i]));
    }
    assert forall|p: int, q: int| 0 <= p < q < vb.len() implies vb[p] != vb[q] by {
        if vb[p] == vb[q] {
            assert(vset.contains(va[p]) && vset.contains(va[q]));
            lemma_ren_var_injective(rho, inv, vset, va[p], va[q]);
        }
    }
    lemma_renaming(va, left);
    lemma_renaming(vb, left);
    let ra = renaming(va, left);
    let rb = renaming(vb, left);
    assert forall|k: int| 0 <= k < a.len() implies #[trigger] apply(b[k], rb) == apply(a[k], ra) by {
        lemma_apply_compose(a[k], rb, rho);
        assert forall|x: VarV| #[trigger] tvars(a[k]).contains(x) implies apply(TermV::Var(x), compose(rb, rho))
            == apply(TermV::Var(x), ra) by {
            lemma_apply_compose(TermV::Var(x), rb, rho);
            assert(vset.contains(x));
            assert(va.contains(x));
            let i = choose|i: int| 0 <= i < va.len() && va[i] == x;
            assert(vb[i] == ren_var(rho, x));
            assert(apply(TermV::Var(x), rho) == TermV::Var(vb[i]));
        }
        lemma_apply_agree(a[k], compose(rb, rho), ra);
    }
}

/// Renaming a term and renaming it back gives the term.
pub proof fn lemma_renames_back(t: TermV, rho: Map<VarV, TermV>, inv: Map<VarV, TermV>, vs: Set<VarV>)
    requires
        renames_on(rho, inv, vs),
        forall|x: VarV| #[trigger] tvars(t).contains(x) ==> vs.contains(x),
    ensures
        apply(apply(t, rho), inv) == t,
{
    lemma_apply_compose(t, inv, rho);
    assert forall|x: VarV| #[trigger] tvars(t).contains(x) implies apply(TermV::Var(x), compose(inv, rho))
        == apply(TermV::Var(x), Map::<VarV, TermV>::empty()) by {
        lemma_apply_compose(TermV::Var(x), inv, rho);
        assert(vs.contains(x));
    }
    lemma_apply_agree(t, compose(inv, rho), Map::<VarV, TermV>::empty());
    lemma_apply_id(t, Map::<VarV, TermV>::empty());
}

/// α-unifiability does not see a renaming of either side.
pub proof fn lemma_alpha_unifiable_renamed(a: TermV, b: TermV, rho: Map<VarV, TermV>, inv: Map<VarV, TermV>, vs: Set<VarV>)
    requires
        renames_on(rho, inv, vs),
        forall|x: VarV| #[trigger] tvars(a).contains(x) ==> vs.contains(x),
    ensures
        alpha_unifiable(apply(a, rho), b) == alpha_unifiable(a, b),
        alpha_unifiable(b, apply(a, rho)) == alpha_unifiable(b, a),
{
    let ar = apply(a, rho);
    if alpha_unifiable(ar, b) {
        let (t1, t2) = choose|t1: Map<VarV, TermV>, t2: Map<VarV, TermV>|
            #[trigger] apply(ar, t1) == #[trigger] apply(b, t2);
        lemma_apply_compose(a, t1, rho);
        assert(apply(a, compose(t1, rho)) == apply(b, t2));
    }
    if alpha_unifiable(a, b) {
        let (t1, t2) = choose|t1: Map<VarV, TermV>, t2: Map<VarV, TermV>|
            #[trigger] apply(a, t1) == #[trigger] apply(b, t2);
        lemma_renames_back(a, rho, inv, vs);
        lemma_apply_compose(ar, t1, inv);
        assert(apply(ar, compose(t1, inv)) == apply(b, t2));
    }
    lemma_alpha_unifiable_symmetric(ar, b);
    lemma_alpha_unifiable_symmetric(a, b);
}

} // verus!
