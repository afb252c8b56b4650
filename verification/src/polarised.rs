//! Polarised signatures and rays (§48.2–§48.7, §49.7).
//!
//! A polarised signature partitions function symbols into positive,
//! negative and neutral ones. A *ray* is a term; two rays are *matchable*
//! (`r ⋈ r′`) when their head symbols are compatible (same name, opposite
//! polarities or both neutral) and their underlying terms are α-unifiable.
use vstd::prelude::*;
use vstd::string::{StrSliceExecFns, StringExecFns};
use crate::term::{lemma_views_of, views_of, Polarity, Sym, Term, TermV};
use crate::alpha::{
    alpha_unifiable, alpha_unify, lemma_alpha_unifiable_renamed, lemma_alpha_unifiable_symmetric,
    renames_on,
};
use crate::term::{lemma_tvars_seq, tvars, tvars_seq, VarV};
use crate::subst::{apply, apply_seq, lemma_apply_seq};

verus! {

broadcast use vstd::std_specs::vec::group_vec_axioms;

/// A ray is a term of a polarised signature (§48.7).
pub type Ray = Term;

/// A function symbol of a polarised signature (§48.2): a neutral name and a polarity.
#[derive(Debug, Clone, PartialEq, Eq)]
pub struct PolarisedSymbol {
    pub polarity: Polarity,
    pub neutral: String,
}

/// The polarity sign written before a name.
pub open spec fn sign(p: Polarity) -> Seq<char> {
    match p {
        Polarity::Pos => seq!['+'],
        Polarity::Neg => seq!['-'],
        Polarity::Neutral => Seq::empty(),
    }
}

/// Split a written symbol into its polarity and neutral name.
pub open spec fn split_symbol(s: Seq<char>) -> (Polarity, Seq<char>) {
    if s.len() > 0 && s[0] == '+' {
        (Polarity::Pos, s.subrange(1, s.len() as int))
    } else if s.len() > 0 && s[0] == '-' {
        (Polarity::Neg, s.subrange(1, s.len() as int))
    } else {
        (Polarity::Neutral, s)
    }
}

/// The opposite polarity; neutral stays neutral.
pub open spec fn opposite_pol(p: Polarity) -> Polarity {
    match p {
        Polarity::Pos => Polarity::Neg,
        Polarity::Neg => Polarity::Pos,
        Polarity::Neutral => Polarity::Neutral,
    }
}

impl PolarisedSymbol {
    pub fn positive(neutral: &str) -> (r: Self)
        ensures
            r.polarity == Polarity::Pos,
            r.neutral@ == neutral@,
    {
        Self { polarity: Polarity::Pos, neutral: neutral.to_owned() }
    }

    pub fn negative(neutral: &str) -> (r: Self)
        ensures
            r.polarity == Polarity::Neg,
            r.neutral@ == neutral@,
    {
        Self { polarity: Polarity::Neg, neutral: neutral.to_owned() }
    }

    pub fn neutral(name: &str) -> (r: Self)
        ensures
            r.polarity == Polarity::Neutral,
            r.neutral@ == name@,
    {
        Self { polarity: Polarity::Neutral, neutral: name.to_owned() }
    }

    /// The written form: `+name`, `-name` or `name`.
    pub fn name(&self) -> (r: String)
        ensures
            r@ == sign(self.polarity) + self.neutral@,
    {
        let r = match self.polarity {
            Polarity::Pos => String::from_str("+").concat(self.neutral.as_str()),
            Polarity::Neg => String::from_str("-").concat(self.neutral.as_str()),
            Polarity::Neutral => self.neutral.clone(),
        };
        proof {
            reveal_strlit("+");
            reveal_strlit("-");
            assert(Seq::<char>::empty() + self.neutral@ =~= self.neutral@);
        }
        r
    }

    /// The dual symbol: polarity flipped, name kept.
    pub fn opposite(&self) -> (r: Self)
        ensures
            r.polarity == opposite_pol(self.polarity),
            r.neutral@ == self.neutral@,
    {
        match self.polarity {
            Polarity::Neutral => Self { polarity: Polarity::Neutral, neutral: self.neutral.clone() },
            Polarity::Pos => Self { polarity: Polarity::Neg, neutral: self.neutral.clone() },
            Polarity::Neg => Self { polarity: Polarity::Pos, neutral: self.neutral.clone() },
        }
    }
}

/// Parse a written symbol: a leading `+` or `-` gives the polarity.
pub fn parse_symbol(s: &str) -> (r: PolarisedSymbol)
    ensures
        (r.polarity, r.neutral@) == split_symbol(s@),
{
    let n = s.unicode_len();
    if n > 0 {
        let c = s.get_char(0);
        if c == '+' {
            return PolarisedSymbol::positive(s.substring_char(1, n));
        } else if c == '-' {
            return PolarisedSymbol::negative(s.substring_char(1, n));
        }
    }
    PolarisedSymbol::neutral(s)
}

/// Writing a symbol and parsing it back gives it back, unless its neutral
/// name itself starts with a sign.
pub proof fn lemma_parse_symbol_name(polarity: Polarity, neutral: Seq<char>)
    requires
        neutral.len() > 0 ==> neutral[0] != '+' && neutral[0] != '-',
    ensures
        split_symbol(sign(polarity) + neutral) == (polarity, neutral),
{
    let w = sign(polarity) + neutral;
    match polarity {
        Polarity::Pos => {
            assert(w[0] == '+');
            assert(w.subrange(1, w.len() as int) =~= neutral);
        },
        Polarity::Neg => {
            assert(w[0] == '-');
            assert(w.subrange(1, w.len() as int) =~= neutral);
        },
        Polarity::Neutral => {
            assert(w =~= neutral);
        },
    }
}

/// The opposite of the opposite is the symbol itself.
pub proof fn lemma_opposite_involutive(p: Polarity)
    ensures
        opposite_pol(opposite_pol(p)) == p,
{
}

// ─────────────────────────────────────────────────────────────────────────
// Compatibility ⊂ (§48.2)
// ─────────────────────────────────────────────────────────────────────────

/// `c ⊂ d`: same neutral name, and opposite polarities or both neutral.
pub open spec fn compat(f: Seq<char>, p: Polarity, g: Seq<char>, q: Polarity) -> bool {
    f == g && ((p == Polarity::Pos && q == Polarity::Neg) || (p == Polarity::Neg && q
        == Polarity::Pos) || (p == Polarity::Neutral && q == Polarity::Neutral))
}

/// `⊂` pairs each symbol with its dual and nothing else: `c ⊂ d` exactly
/// when `d` has the name of `c` and the opposite polarity, where a neutral
/// symbol is its own opposite. In particular two neutral symbols of the same
/// name are compatible, and a polarised symbol is never compatible with itself.
pub proof fn lemma_compat_is_duality(f: Seq<char>, p: Polarity, g: Seq<char>, q: Polarity)
    ensures
        compat(f, p, g, q) <==> (f == g && q == opposite_pol(p)),
        compat(f, Polarity::Neutral, f, Polarity::Neutral),
        compat(f, p, g, q) <==> compat(g, q, f, p),
        p != Polarity::Neutral ==> !compat(f, p, f, p),
        compat(f, p, f, opposite_pol(p)),
{
}

/// The polarised compatibility relation `⊂` (§48.2).
pub struct PolarisedCompat;

impl PolarisedCompat {
    pub fn compatible(&self, c: &Sym, d: &Sym) -> (r: bool)
        ensures
            r == compat(c.name@, c.pol, d.name@, d.pol),
    {
        if c.name != d.name {
            return false;
        }
        match (c.pol, d.pol) {
            (Polarity::Pos, Polarity::Neg) | (Polarity::Neg, Polarity::Pos) | (
                Polarity::Neutral,
                Polarity::Neutral,
            ) => true,
            _ => false,
        }
    }
}

// ─────────────────────────────────────────────────────────────────────────
// Underlying term |·| (§48.7)
// ─────────────────────────────────────────────────────────────────────────

/// `|r|`: every symbol made neutral.
pub open spec fn underlying(t: TermV) -> TermV
    decreases t,
{
    match t {
        TermV::Var(_) => t,
        TermV::App(f, _, args) => TermV::App(f, Polarity::Neutral, underlying_seq(args)),
    }
}

pub open spec fn underlying_seq(ts: Seq<TermV>) -> Seq<TermV>
    decreases ts,
{
    if ts.len() == 0 {
        Seq::empty()
    } else {
        underlying_seq(ts.drop_last()).push(underlying(ts.last()))
    }
}

pub proof fn lemma_underlying_seq(ts: Seq<TermV>)
    ensures
        underlying_seq(ts).len() == ts.len(),
        forall|i: int| 0 <= i < ts.len() ==> #[trigger] underlying_seq(ts)[i] == underlying(ts[i]),
    decreases ts.len(),
{
    if ts.len() > 0 {
        lemma_underlying_seq(ts.drop_last());
        assert(underlying_seq(ts) == underlying_seq(ts.drop_last()).push(underlying(ts.last())));
        assert forall|i: int| 0 <= i < ts.len() implies #[trigger] underlying_seq(ts)[i]
            == underlying(ts[i]) by {
            if i < ts.len() - 1 {
                assert(ts.drop_last()[i] == ts[i]);
            }
        }
    }
}

/// The underlying-term operator `|·|` (§48.7).
pub fn underlying_term(ray: &Term) -> (r: Term)
    ensures
        r@ == underlying(ray@),
    decreases ray,
{
    match ray {
        Term::Var(v) => Term::Var(v.dup()),
        Term::App(sym, args) => {
            let mut out: Vec<Term> = Vec::new();
            let mut i: usize = 0;
            #[verifier::loop_isolation(false)]
            while i < args.len()
                invariant
                    i <= args.len(),
                    out.len() == i,
                    forall|k: int| 0 <= k < i ==> out[k]@ == underlying(args[k]@),
                decreases args.len() - i,
            {
                proof {
                    assert(decreases_to!(args => args[i as int]));
                }
                out.push(underlying_term(&args[i]));
                i += 1;
            }
            proof {
                lemma_views_of(out@);
                lemma_views_of(args@);
                lemma_underlying_seq(views_of(args@));
                assert(views_of(out@) =~= underlying_seq(views_of(args@)));
            }
            Term::App(Sym { name: sym.name.clone(), pol: Polarity::Neutral }, out)
        },
    }
}

/// Polarity of a ray's head symbol; variables count as neutral.
pub open spec fn head_pol(t: TermV) -> Polarity {
    match t {
        TermV::Var(_) => Polarity::Neutral,
        TermV::App(_, p, _) => p,
    }
}

pub fn ray_polarity(r: &Term) -> (p: Polarity)
    ensures
        p == head_pol(r@),
{
    match r {
        Term::Var(_) => Polarity::Neutral,
        Term::App(sym, _) => sym.pol,
    }
}

/// Build the ray `+name(args)`.
pub fn pos_ray(neutral: &str, args: Vec<Term>) -> (r: Term)
    ensures
        r@ == TermV::App(neutral@, Polarity::Pos, views_of(args@)),
{
    Term::App(Sym { name: neutral.to_owned(), pol: Polarity::Pos }, args)
}

/// Build the ray `-name(args)`.
pub fn neg_ray(neutral: &str, args: Vec<Term>) -> (r: Term)
    ensures
        r@ == TermV::App(neutral@, Polarity::Neg, views_of(args@)),
{
    Term::App(Sym { name: neutral.to_owned(), pol: Polarity::Neg }, args)
}

/// Build a term from a written symbol (`+f`, `-f` or `f`) and arguments.
pub fn mk_app_str(name: &str, args: Vec<Term>) -> (r: Term)
    ensures
        r@ == TermV::App(split_symbol(name@).1, split_symbol(name@).0, views_of(args@)),
{
    let s = parse_symbol(name);
    Term::App(Sym { name: s.neutral, pol: s.polarity }, args)
}

// ─────────────────────────────────────────────────────────────────────────
// Matchability ⋈ (§49.7)
// ─────────────────────────────────────────────────────────────────────────

/// `r ⋈ r′`: compatible head symbols and α-unifiable underlying terms.
pub open spec fn matchable_spec(r: TermV, r2: TermV) -> bool {
    match (r, r2) {
        (TermV::App(f, p, _), TermV::App(g, q, _)) => compat(f, p, g, q) && alpha_unifiable(
            underlying(r),
            underlying(r2),
        ),
        _ => false,
    }
}

/// Matchability `r ⋈ r′` (§49.7).
pub fn matchable(r: &Term, r_prime: &Term) -> (b: bool)
    ensures
        b == matchable_spec(r@, r_prime@),
{
    match (r, r_prime) {
        (Term::App(f, _), Term::App(g, _)) => {
            if !PolarisedCompat.compatible(f, g) {
                return false;
            }
        },
        _ => return false,
    }
    alpha_unify(underlying_term(r), underlying_term(r_prime)).is_some()
}

/// Matchability `r ⋈ r′`, the entry point of the fast path: the same
/// relation as [`matchable`].
pub fn matchable_fast(r: &Term, r_prime: &Term) -> (b: bool)
    ensures
        b == matchable_spec(r@, r_prime@),
{
    matchable(r, r_prime)
}

/// Two applied rays whose heads are duals (same name, opposite polarities,
/// or both neutral) are matchable exactly when their underlying terms are
/// α-unifiable; rays whose heads are not duals, and variables, never match.
pub proof fn lemma_matchable_dual_heads(f: Seq<char>, p: Polarity, xs: Seq<TermV>, g: Seq<char>, q: Polarity, ys: Seq<TermV>)
    ensures
        (f == g && q == opposite_pol(p)) ==> (matchable_spec(TermV::App(f, p, xs), TermV::App(g, q, ys))
            <==> alpha_unifiable(
            TermV::App(f, Polarity::Neutral, underlying_seq(xs)),
            TermV::App(g, Polarity::Neutral, underlying_seq(ys)),
        )),
        !(f == g && q == opposite_pol(p)) ==> !matchable_spec(TermV::App(f, p, xs), TermV::App(g, q, ys)),
        matchable_spec(TermV::App(f, Polarity::Neutral, xs), TermV::App(f, Polarity::Neutral, ys))
            <== alpha_unifiable(
            TermV::App(f, Polarity::Neutral, underlying_seq(xs)),
            TermV::App(f, Polarity::Neutral, underlying_seq(ys)),
        ),
{
    lemma_compat_is_duality(f, p, g, q);
    lemma_compat_is_duality(f, Polarity::Neutral, f, Polarity::Neutral);
}

/// A variable ray matches nothing.
pub proof fn lemma_matchable_var(x: VarV, r: TermV)
    ensures
        !matchable_spec(TermV::Var(x), r),
        !matchable_spec(r, TermV::Var(x)),
{
}

/// `⋈` is symmetric (§49.8).
pub proof fn lemma_matchable_symmetric(r: TermV, r2: TermV)
    ensures
        matchable_spec(r, r2) == matchable_spec(r2, r),
{
    lemma_alpha_unifiable_symmetric(underlying(r), underlying(r2));
}

/// `⋈` is anti-reflexive on polarised rays (§49.8).
pub proof fn lemma_matchable_anti_reflexive(r: TermV)
    requires
        head_pol(r) != Polarity::Neutral,
    ensures
        !matchable_spec(r, r),
{
}

/// `⋈` is anti-transitive on polarised rays (§49.8): from `r₁ ⋈ r₂` and
/// `r₂ ⋈ r₃` it never follows that `r₁ ⋈ r₃`.
pub proof fn lemma_matchable_anti_transitive(r1: TermV, r2: TermV, r3: TermV)
    requires
        head_pol(r1) != Polarity::Neutral,
        matchable_spec(r1, r2),
        matchable_spec(r2, r3),
    ensures
        !matchable_spec(r1, r3),
{
}

/// A substitution sending variables to variables commutes with taking the
/// underlying term, which has the same variables.
pub proof fn lemma_underlying_apply(t: TermV, rho: Map<VarV, TermV>)
    requires
        forall|x: VarV| #[trigger] tvars(t).contains(x) ==> apply(TermV::Var(x), rho) is Var,
    ensures
        underlying(apply(t, rho)) == apply(underlying(t), rho),
        tvars(underlying(t)) == tvars(t),
    decreases t,
{
    match t {
        TermV::Var(x) => {
            assert(tvars(t).contains(x));
        },
        TermV::App(f, p, args) => {
            let ua = underlying_seq(args);
            let ra = apply_seq(args, rho);
            lemma_underlying_seq(args);
            lemma_underlying_seq(ra);
            lemma_apply_seq(args, rho);
            lemma_apply_seq(ua, rho);
            lemma_tvars_seq(args);
            lemma_tvars_seq(ua);
            assert forall|i: int| 0 <= i < args.len() implies underlying(#[trigger] apply(args[i], rho))
                == apply(underlying(args[i]), rho) && tvars(underlying(args[i])) == tvars(args[i]) by {
                assert forall|x: VarV| #[trigger] tvars(args[i]).contains(x) implies apply(TermV::Var(x), rho) is Var by {
                    assert(tvars_seq(args).contains(x));
                    assert(tvars(t).contains(x));
                }
                lemma_underlying_apply(args[i], rho);
            }
            assert(underlying_seq(ra) =~= apply_seq(ua, rho));
            assert forall|i: int| 0 <= i < args.len() implies tvars(#[trigger] ua[i]) == tvars(args[i]) by {
                assert(underlying(apply(args[i], rho)) == apply(underlying(args[i]), rho));
            }
            assert forall|x: VarV| tvars_seq(ua).contains(x) <==> tvars_seq(args).contains(x) by {
                if tvars_seq(ua).contains(x) {
                    let i = choose|i: int| 0 <= i < ua.len() && tvars(ua[i]).contains(x);
                    assert(tvars(args[i]).contains(x));
                }
                if tvars_seq(args).contains(x) {
                    let i = choose|i: int| 0 <= i < args.len() && tvars(args[i]).contains(x);
                    assert(tvars(ua[i]).contains(x));
                }
            }
            assert(tvars_seq(ua) =~= tvars_seq(args));
        },
    }
}

/// Matchability and the head's polarity do not see a renaming of the
/// variables of a ray, nor a common renaming of two rays.
pub proof fn lemma_matchable_renamed(r: TermV, u: TermV, rho: Map<VarV, TermV>, inv: Map<VarV, TermV>, vs: Set<VarV>)
    requires
        renames_on(rho, inv, vs),
        forall|x: VarV| #[trigger] tvars(r).contains(x) ==> vs.contains(x),
    ensures
        head_pol(apply(r, rho)) == head_pol(r),
        matchable_spec(apply(r, rho), u) == matchable_spec(r, u),
        matchable_spec(u, apply(r, rho)) == matchable_spec(u, r),
        (forall|x: VarV| #[trigger] tvars(u).contains(x) ==> vs.contains(x)) ==> matchable_spec(
            apply(r, rho),
            apply(u, rho),
        ) == matchable_spec(r, u),
{
    lemma_matchable_symmetric(apply(r, rho), u);
    lemma_matchable_symmetric(r, u);
    match r {
        TermV::Var(x) => {
            assert(tvars(r).contains(x));
        },
        TermV::App(f, p, args) => {
            lemma_underlying_apply(r, rho);
            lemma_alpha_unifiable_renamed(underlying(r), underlying(u), rho, inv, vs);
            match u {
                TermV::Var(y) => {
                    assert(tvars(u).contains(y));
                },
                TermV::App(g, q, uargs) => {
                    if forall|x: VarV| #[trigger] tvars(u).contains(x) ==> vs.contains(x) {
                        lemma_underlying_apply(u, rho);
                        lemma_alpha_unifiable_renamed(underlying(u), apply(underlying(r), rho), rho, inv, vs);
                    }
                },
            }
        },
    }
}

} // verus!
