//! Substitutions: finite maps from variables to terms (§B.1).
use vstd::prelude::*;
use crate::term::{
    lemma_tsize_seq_elem, lemma_tvars_seq, lemma_views_of, tsize, tvars, tvars_seq, views_of, Term,
    TermV, Var,
    VarV,
};

verus! {

broadcast use vstd::std_specs::vec::group_vec_axioms;

/// Apply a substitution (as a map) to a term.
pub open spec fn apply(t: TermV, s: Map<VarV, TermV>) -> TermV
    decreases t,
{
    match t {
        TermV::Var(x) => if s.contains_key(x) {
            s[x]
        } else {
            t
        },
        TermV::App(f, p, args) => TermV::App(f, p, apply_seq(args, s)),
    }
}

pub open spec fn apply_seq(ts: Seq<TermV>, s: Map<VarV, TermV>) -> Seq<TermV>
    decreases ts,
{
    if ts.len() == 0 {
        Seq::empty()
    } else {
        apply_seq(ts.drop_last(), s).push(apply(ts.last(), s))
    }
}

/// The single binding `x ↦ b`.
pub open spec fn single(x: VarV, b: TermV) -> Map<VarV, TermV> {
    Map::empty().insert(x, b)
}

/// The model of a list of bindings: later bindings override earlier ones.
pub open spec fn pairs_map(ps: Seq<(VarV, TermV)>) -> Map<VarV, TermV>
    decreases ps.len(),
{
    if ps.len() == 0 {
        Map::empty()
    } else {
        pairs_map(ps.drop_last()).insert(ps.last().0, ps.last().1)
    }
}

/// `θ ∘ σ`: first `σ`, then `θ`.
pub open spec fn compose(theta: Map<VarV, TermV>, sigma: Map<VarV, TermV>) -> Map<VarV, TermV> {
    Map::new(
        |x: VarV| sigma.contains_key(x) || theta.contains_key(x),
        |x: VarV| apply(apply(TermV::Var(x), sigma), theta),
    )
}

pub proof fn lemma_apply_seq(ts: Seq<TermV>, s: Map<VarV, TermV>)
    ensures
        apply_seq(ts, s).len() == ts.len(),
        forall|i: int| 0 <= i < ts.len() ==> #[trigger] apply_seq(ts, s)[i] == apply(ts[i], s),
    decreases ts.len(),
{
    if ts.len() > 0 {
        lemma_apply_seq(ts.drop_last(), s);
        assert(apply_seq(ts, s) == apply_seq(ts.drop_last(), s).push(apply(ts.last(), s)));
        assert forall|i: int| 0 <= i < ts.len() implies #[trigger] apply_seq(ts, s)[i] == apply(
            ts[i],
            s,
        ) by {
            if i < ts.len() - 1 {
                assert(ts.drop_last()[i] == ts[i]);
            }
        }
    }
}

/// Applying a substitution that binds none of a term's variables leaves it unchanged.
pub proof fn lemma_apply_id(t: TermV, s: Map<VarV, TermV>)
    requires
        forall|x: VarV| tvars(t).contains(x) ==> !s.contains_key(x),
    ensures
        apply(t, s) == t,
    decreases t,
{
    match t {
        TermV::Var(x) => {},
        TermV::App(f, p, args) => {
            lemma_tvars_seq(args);
            lemma_apply_seq(args, s);
            assert(tvars(t) == tvars_seq(args));
            assert forall|i: int| 0 <= i < args.len() implies apply(args[i], s) == args[i] by {
                assert forall|x: VarV| tvars(args[i]).contains(x) implies !s.contains_key(x) by {
                    assert(tvars_seq(args).contains(x));
                }
                lemma_apply_id(args[i], s);
            }
            assert(apply_seq(args, s) =~= args);
        },
    }
}

/// Two substitutions that agree on a term's variables agree on the term.
pub proof fn lemma_apply_agree(t: TermV, s1: Map<VarV, TermV>, s2: Map<VarV, TermV>)
    requires
        forall|x: VarV| #[trigger]
            tvars(t).contains(x) ==> apply(TermV::Var(x), s1) == apply(TermV::Var(x), s2),
    ensures
        apply(t, s1) == apply(t, s2),
    decreases t,
{
    match t {
        TermV::Var(x) => {
            assert(tvars(t).contains(x));
        },
        TermV::App(f, p, args) => {
            lemma_tvars_seq(args);
            lemma_apply_seq(args, s1);
            lemma_apply_seq(args, s2);
            assert forall|i: int| 0 <= i < args.len() implies apply(args[i], s1) == apply(
                args[i],
                s2,
            ) by {
                assert forall|x: VarV| #[trigger]
                    tvars(args[i]).contains(x) implies apply(TermV::Var(x), s1) == apply(
                    TermV::Var(x),
                    s2,
                ) by {
                    assert(tvars_seq(args).contains(x));
                    assert(tvars(t) == tvars_seq(args));
                    assert(tvars(t).contains(x));
                }
                lemma_apply_agree(args[i], s1, s2);
            }
            assert(apply_seq(args, s1) =~= apply_seq(args, s2));
        },
    }
}

/// Applying `σ` then `θ` is applying their composition.
pub proof fn lemma_apply_compose(t: TermV, theta: Map<VarV, TermV>, sigma: Map<VarV, TermV>)
    ensures
        apply(apply(t, sigma), theta) == apply(t, compose(theta, sigma)),
    decreases t,
{
    match t {
        TermV::Var(x) => {},
        TermV::App(f, p, args) => {
            lemma_apply_seq(args, sigma);
            lemma_apply_seq(apply_seq(args, sigma), theta);
            lemma_apply_seq(args, compose(theta, sigma));
            assert forall|i: int| 0 <= i < args.len() implies apply(
                apply_seq(args, sigma)[i],
                theta,
            ) == apply(args[i], compose(theta, sigma)) by {
                lemma_apply_compose(args[i], theta, sigma);
            }
            assert(apply_seq(apply_seq(args, sigma), theta) =~= apply_seq(
                args,
                compose(theta, sigma),
            ));
        },
    }
}

/// Variables after replacing `x` by `b`.
pub proof fn lemma_vars_single(t: TermV, x: VarV, b: TermV)
    ensures
        forall|y: VarV| #[trigger]
            tvars(apply(t, single(x, b))).contains(y) ==> (tvars(t).contains(y) && y != x) || tvars(
                b,
            ).contains(y),
        tvars(t).contains(x) ==> tvars(b).subset_of(tvars(apply(t, single(x, b)))),
        forall|y: VarV| #[trigger] tvars(t).contains(y) && y != x ==> tvars(apply(t, single(x, b))).contains(y),
    decreases t,
{
    match t {
        TermV::Var(z) => {},
        TermV::App(f, p, args) => {
            let s = single(x, b);
            lemma_tvars_seq(args);
            lemma_apply_seq(args, s);
            lemma_tvars_seq(apply_seq(args, s));
            assert(tvars(t) == tvars_seq(args));
            assert(tvars(apply(t, s)) == tvars_seq(apply_seq(args, s)));
            assert forall|i: int| 0 <= i < args.len() implies #[trigger] tvars(
                apply(args[i], s),
            ) == tvars(apply_seq(args, s)[i]) by {}
            assert forall|y: VarV| #[trigger]
                tvars(apply(t, s)).contains(y) implies (tvars(t).contains(y) && y != x) || tvars(
                b,
            ).contains(y) by {
                let i = choose|i: int|
                    0 <= i < apply_seq(args, s).len() && tvars(apply_seq(args, s)[i]).contains(y);
                lemma_vars_single(args[i], x, b);
            }
            if tvars(t).contains(x) {
                let i = choose|i: int| 0 <= i < args.len() && tvars(args[i]).contains(x);
                lemma_vars_single(args[i], x, b);
                assert forall|y: VarV| tvars(b).contains(y) implies tvars(apply(t, s)).contains(
                    y,
                ) by {
                    assert(tvars(apply_seq(args, s)[i]).contains(y));
                }
            }
            assert forall|y: VarV| #[trigger]
                tvars(t).contains(y) && y != x implies tvars(apply(t, s)).contains(y) by {
                let i = choose|i: int| 0 <= i < args.len() && tvars(args[i]).contains(y);
                lemma_vars_single(args[i], x, b);
                assert(tvars(apply_seq(args, s)[i]).contains(y));
            }
        },
    }
}

/// If `θ` identifies `x` with `b`, then replacing `x` by `b` is invisible to `θ`.
pub proof fn lemma_single_absorbed(t: TermV, x: VarV, b: TermV, theta: Map<VarV, TermV>)
    requires
        apply(TermV::Var(x), theta) == apply(b, theta),
    ensures
        apply(apply(t, single(x, b)), theta) == apply(t, theta),
    decreases t,
{
    match t {
        TermV::Var(z) => {},
        TermV::App(f, p, args) => {
            let s = single(x, b);
            lemma_apply_seq(args, s);
            lemma_apply_seq(apply_seq(args, s), theta);
            lemma_apply_seq(args, theta);
            assert forall|i: int| 0 <= i < args.len() implies apply(
                apply_seq(args, s)[i],
                theta,
            ) == apply(args[i], theta) by {
                lemma_single_absorbed(args[i], x, b, theta);
            }
            assert(apply_seq(apply_seq(args, s), theta) =~= apply_seq(args, theta));
        },
    }
}

/// A variable occurring strictly inside `t` makes `θ(t)` strictly larger than `θ(x)`.
pub proof fn lemma_occurs_size(t: TermV, x: VarV, theta: Map<VarV, TermV>)
    requires
        tvars(t).contains(x),
    ensures
        tsize(apply(TermV::Var(x), theta)) <= tsize(apply(t, theta)),
        t != TermV::Var(x) ==> tsize(apply(TermV::Var(x), theta)) < tsize(apply(t, theta)),
    decreases t,
{
    match t {
        TermV::Var(z) => {},
        TermV::App(f, p, args) => {
            lemma_tvars_seq(args);
            assert(tvars(t) == tvars_seq(args));
            assert(tvars_seq(args).contains(x));
            let i = choose|i: int| 0 <= i < args.len() && tvars(args[i]).contains(x);
            lemma_occurs_size(args[i], x, theta);
            lemma_apply_seq(args, theta);
            lemma_tsize_seq_elem(apply_seq(args, theta), i);
        },
    }
}

// ─────────────────────────────────────────────────────────────────────────
// Executable substitutions
// ─────────────────────────────────────────────────────────────────────────

/// Models of a list of bindings.
pub open spec fn bindings_view(ps: Seq<(Var, Term)>) -> Seq<(VarV, TermV)> {
    Seq::new(ps.len(), |i: int| (ps[i].0@, ps[i].1@))
}

/// A substitution, as a list of bindings (later bindings override earlier ones).
#[derive(Debug)]
pub struct Substitution {
    pub pairs: Vec<(Var, Term)>,
}

impl View for Substitution {
    type V = Map<VarV, TermV>;

    open spec fn view(&self) -> Map<VarV, TermV> {
        pairs_map(bindings_view(self.pairs@))
    }
}

/// The last binding of `x` in the list is its value.
pub proof fn lemma_pairs_map_last(ps: Seq<(VarV, TermV)>, i: int, x: VarV)
    requires
        0 <= i < ps.len(),
        ps[i].0 == x,
        forall|j: int| i < j < ps.len() ==> ps[j].0 != x,
    ensures
        pairs_map(ps).contains_key(x),
        pairs_map(ps)[x] == ps[i].1,
    decreases ps.len(),
{
    if i < ps.len() - 1 {
        assert(ps.drop_last()[i] == ps[i]);
        assert forall|j: int| i < j < ps.drop_last().len() implies ps.drop_last()[j].0 != x by {
            assert(ps.drop_last()[j] == ps[j]);
        }
        lemma_pairs_map_last(ps.drop_last(), i, x);
    }
}

/// A variable bound nowhere in the list is not in the map.
pub proof fn lemma_pairs_map_absent(ps: Seq<(VarV, TermV)>, x: VarV)
    requires
        forall|j: int| 0 <= j < ps.len() ==> ps[j].0 != x,
    ensures
        !pairs_map(ps).contains_key(x),
    decreases ps.len(),
{
    if ps.len() > 0 {
        assert forall|j: int| 0 <= j < ps.drop_last().len() implies ps.drop_last()[j].0 != x by {
            assert(ps.drop_last()[j] == ps[j]);
        }
        lemma_pairs_map_absent(ps.drop_last(), x);
    }
}

/// The map of a concatenation: the later list's bindings override.
pub proof fn lemma_pairs_map_concat(a: Seq<(VarV, TermV)>, b: Seq<(VarV, TermV)>)
    ensures
        pairs_map(a + b) == pairs_map(a).union_prefer_right(pairs_map(b)),
    decreases b.len(),
{
    if b.len() == 0 {
        assert(a + b =~= a);
        assert(pairs_map(a).union_prefer_right(pairs_map(b)) =~= pairs_map(a));
    } else {
        lemma_pairs_map_concat(a, b.drop_last());
        assert((a + b).drop_last() =~= a + b.drop_last());
        assert((a + b).last() == b.last());
        assert(pairs_map(a + b) =~= pairs_map(a).union_prefer_right(pairs_map(b)));
    }
}

/// The bindings `a ++ θ₁(b₂)` represent `θ₁ ∘ θ₂` when `a` represents `θ₁` and `b₂` represents `θ₂`.
pub proof fn lemma_compose_pairs(
    a: Seq<(VarV, TermV)>,
    b: Seq<(VarV, TermV)>,
    b2: Seq<(VarV, TermV)>,
)
    requires
        b.len() == b2.len(),
        forall|k: int|
            0 <= k < b.len() ==> #[trigger] b[k].0 == b2[k].0 && b[k].1 == apply(
                b2[k].1,
                pairs_map(a),
            ),
    ensures
        forall|t: TermV| #[trigger]
            apply(t, pairs_map(a + b)) == apply(apply(t, pairs_map(b2)), pairs_map(a)),
{
    let theta1 = pairs_map(a);
    let theta2 = pairs_map(b2);
    let m = pairs_map(a + b);
    lemma_pairs_map_concat(a, b);
    assert forall|x: VarV| #[trigger]
        apply(TermV::Var(x), m) == apply(apply(TermV::Var(x), theta2), theta1) by {
        if exists|k: int| 0 <= k < b.len() && b[k].0 == x {
            let k0 = choose|k: int| 0 <= k < b.len() && b[k].0 == x;
            let k = last_index(b, x, k0);
            lemma_pairs_map_last(b, k, x);
            assert forall|j: int| k < j < b2.len() implies b2[j].0 != x by {
                assert(b[j].0 == b2[j].0);
            }
            lemma_pairs_map_last(b2, k, x);
        } else {
            lemma_pairs_map_absent(b, x);
            assert forall|j: int| 0 <= j < b2.len() implies b2[j].0 != x by {
                assert(b[j].0 == b2[j].0);
            }
            lemma_pairs_map_absent(b2, x);
        }
    }
    assert forall|t: TermV| #[trigger] apply(t, m) == apply(apply(t, theta2), theta1) by {
        lemma_apply_compose(t, theta1, theta2);
        lemma_apply_agree(t, m, compose(theta1, theta2));
    }
}

/// The last position at or after `k` holding a binding of `x`.
pub proof fn last_index(b: Seq<(VarV, TermV)>, x: VarV, k: int) -> (r: int)
    requires
        0 <= k < b.len(),
        b[k].0 == x,
    ensures
        k <= r < b.len(),
        b[r].0 == x,
        forall|j: int| r < j < b.len() ==> b[j].0 != x,
    decreases b.len() - k,
{
    if exists|j: int| k < j < b.len() && b[j].0 == x {
        let j = choose|j: int| k < j < b.len() && b[j].0 == x;
        last_index(b, x, j)
    } else {
        k
    }
}

impl Substitution {
    /// The empty substitution.
    pub fn new() -> (r: Substitution)
        ensures
            r@ == Map::<VarV, TermV>::empty(),
    {
        Substitution { pairs: Vec::new() }
    }

    /// A substitution from a list of bindings; a later binding of the same variable wins.
    pub fn from_var_pairs(pairs: Vec<(Var, Term)>) -> (r: Substitution)
        ensures
            r@ == pairs_map(bindings_view(pairs@)),
    {
        Substitution { pairs }
    }

    /// A substitution from `(name, term)` bindings; a later binding of the same name wins.
    pub fn from_pairs(pairs: Vec<(String, Term)>) -> (r: Substitution)
        ensures
            r@ == pairs_map(
                Seq::new(pairs.len() as nat, |i: int| (VarV::Named(pairs[i].0@), pairs[i].1@)),
            ),
    {
        let mut out: Vec<(Var, Term)> = Vec::new();
        let mut ps = pairs;
        let ghost orig = ps@;
        let ghost target = Seq::new(orig.len(), |i: int| (VarV::Named(orig[i].0@), orig[i].1@));
        while ps.len() > 0
            invariant
                out.len() + ps.len() == orig.len(),
                ps@ == orig.subrange(out.len() as int, orig.len() as int),
                forall|k: int|
                    0 <= k < out.len() ==> #[trigger] out[k].0@ == VarV::Named(orig[k].0@)
                        && out[k].1@ == orig[k].1@,
            decreases ps.len(),
        {
            let (name, t) = ps.remove(0);
            let ghost k = out.len() as int;
            proof {
                assert(orig[k] == (name, t));
            }
            out.push((Var::Named(name), t));
            proof {
                assert(ps@ =~= orig.subrange(out.len() as int, orig.len() as int));
            }
        }
        proof {
            assert(bindings_view(out@) =~= target);
        }
        Substitution { pairs: out }
    }

    /// Look up the binding of a variable.
    pub fn lookup(&self, x: &Var) -> (r: Option<&Term>)
        ensures
            r is Some <==> self@.contains_key(x@),
            r is Some ==> r.unwrap()@ == self@[x@],
    {
        let mut i = self.pairs.len();
        let ghost ps = bindings_view(self.pairs@);
        while i > 0
            invariant
                i <= self.pairs.len(),
                ps == bindings_view(self.pairs@),
                forall|j: int| i <= j < self.pairs.len() ==> ps[j].0 != x@,
            decreases i,
        {
            i -= 1;
            if self.pairs[i].0.same(x) {
                proof {
                    lemma_pairs_map_last(ps, i as int, x@);
                }
                return Some(&self.pairs[i].1);
            }
        }
        proof {
            lemma_pairs_map_absent(ps, x@);
        }
        None
    }

    /// Apply the substitution to a term.
    pub fn apply(&self, t: &Term) -> (r: Term)
        ensures
            r@ == apply(t@, self@),
        decreases t,
    {
        match t {
            Term::Var(x) => match self.lookup(x) {
                Some(u) => u.dup(),
                None => t.dup(),
            },
            Term::App(f, args) => {
                let mut out: Vec<Term> = Vec::new();
                let mut i: usize = 0;
                #[verifier::loop_isolation(false)]
                while i < args.len()
                    invariant
                        i <= args.len(),
                        out.len() == i,
                        forall|k: int| 0 <= k < i ==> out[k]@ == apply(args[k]@, self@),
                    decreases args.len() - i,
                {
                    proof {
                        assert(decreases_to!(args => args[i as int]));
                    }
                    out.push(self.apply(&args[i]));
                    i += 1;
                }
                proof {
                    lemma_views_of(out@);
                    lemma_views_of(args@);
                    lemma_apply_seq(views_of(args@), self@);
                    assert(views_of(out@) =~= apply_seq(views_of(args@), self@));
                }
                Term::App(f.dup(), out)
            },
        }
    }

    /// Composition `θ₁ ∘ θ₂`: applying the result is applying `θ₂` then `θ₁`.
    pub fn compose(theta1: &Substitution, theta2: &Substitution) -> (r: Substitution)
        ensures
            forall|t: TermV| #[trigger] apply(t, r@) == apply(apply(t, theta2@), theta1@),
    {
        let mut first: Vec<(Var, Term)> = Vec::new();
        let mut i: usize = 0;
        while i < theta1.pairs.len()
            invariant
                i <= theta1.pairs.len(),
                first.len() == i,
                forall|k: int|
                    0 <= k < i ==> #[trigger] first[k].0@ == theta1.pairs[k].0@ && first[k].1@
                        == theta1.pairs[k].1@,
            decreases theta1.pairs.len() - i,
        {
            first.push((theta1.pairs[i].0.dup(), theta1.pairs[i].1.dup()));
            i += 1;
        }
        let mut second: Vec<(Var, Term)> = Vec::new();
        let mut j: usize = 0;
        while j < theta2.pairs.len()
            invariant
                j <= theta2.pairs.len(),
                second.len() == j,
                forall|k: int|
                    0 <= k < j ==> #[trigger] second[k].0@ == theta2.pairs[k].0@ && second[k].1@
                        == apply(theta2.pairs[k].1@, theta1@),
            decreases theta2.pairs.len() - j,
        {
            let t = theta1.apply(&theta2.pairs[j].1);
            second.push((theta2.pairs[j].0.dup(), t));
            j += 1;
        }
        let ghost a = bindings_view(first@);
        let ghost b = bindings_view(second@);
        proof {
            assert(a =~= bindings_view(theta1.pairs@));
        }
        let mut out = first;
        let mut rest = second;
        out.append(&mut rest);
        let r = Substitution { pairs: out };
        proof {
            assert(bindings_view(r.pairs@) =~= a + b);
            lemma_compose_pairs(a, b, bindings_view(theta2.pairs@));
        }
        r
    }
}

} // verus!
