//! First-order terms over a polarised signature, with their mathematical model.
//!
//! A term is a variable or a function symbol applied to a list of terms. A
//! symbol carries a name and a polarity (`+`, `-` or none). The spec model
//! [`TermV`] mirrors [`Term`] with sequences of characters in place of
//! `String`s, so that contracts can compare terms by value.
use vstd::prelude::*;

verus! {

broadcast use vstd::std_specs::vec::group_vec_axioms;

/// Polarity of a function symbol (§48.2).
#[derive(Clone, Copy, Debug, PartialEq, Eq, Structural)]
pub enum Polarity {
    Pos,
    Neg,
    Neutral,
}

/// A variable: a user-written name, or one of the two families of
/// machine-generated variables used to rename two stars apart before they
/// interact (the left star's and the right star's).
#[derive(Clone, Debug, PartialEq, Eq)]
pub enum Var {
    Named(String),
    Left(usize),
    Right(usize),
}

/// Model of a variable.
pub enum VarV {
    Named(Seq<char>),
    Left(nat),
    Right(nat),
}

impl View for Var {
    type V = VarV;

    open spec fn view(&self) -> VarV {
        match self {
            Var::Named(s) => VarV::Named(s@),
            Var::Left(i) => VarV::Left(*i as nat),
            Var::Right(i) => VarV::Right(*i as nat),
        }
    }
}

/// A polarised function symbol.
#[derive(Clone, Debug, PartialEq, Eq)]
pub struct Sym {
    pub name: String,
    pub pol: Polarity,
}

/// A first-order term.
#[derive(Debug, PartialEq, Eq)]
pub enum Term {
    Var(Var),
    App(Sym, Vec<Term>),
}

/// Model of a term: names become character sequences.
pub enum TermV {
    Var(VarV),
    App(Seq<char>, Polarity, Seq<TermV>),
}

/// Models of a sequence of terms.
pub open spec fn views_of(s: Seq<Term>) -> Seq<TermV>
    decreases s,
{
    if s.len() == 0 {
        Seq::empty()
    } else {
        views_of(s.drop_last()).push(s.last().view())
    }
}

impl View for Term {
    type V = TermV;

    open spec fn view(&self) -> TermV
        decreases self,
    {
        match self {
            Term::Var(v) => TermV::Var(v@),
            Term::App(f, args) => TermV::App(f.name@, f.pol, views_of(args@)),
        }
    }
}

pub proof fn lemma_views_of(s: Seq<Term>)
    ensures
        views_of(s).len() == s.len(),
        forall|i: int| 0 <= i < s.len() ==> #[trigger] views_of(s)[i] == s[i]@,
    decreases s.len(),
{
    if s.len() > 0 {
        lemma_views_of(s.drop_last());
        assert(views_of(s) == views_of(s.drop_last()).push(s.last().view()));
        assert forall|i: int| 0 <= i < s.len() implies #[trigger] views_of(s)[i] == s[i]@ by {
            if i < s.len() - 1 {
                assert(s.drop_last()[i] == s[i]);
            }
        }
    }
}

/// Two term sequences with pointwise equal models have equal models.
pub proof fn lemma_views_of_ext(a: Seq<Term>, b: Seq<Term>)
    requires
        a.len() == b.len(),
        forall|i: int| 0 <= i < a.len() ==> a[i]@ == b[i]@,
    ensures
        views_of(a) == views_of(b),
{
    lemma_views_of(a);
    lemma_views_of(b);
    assert(views_of(a) =~= views_of(b));
}

// ─────────────────────────────────────────────────────────────────────────
// Structural functions on the model
// ─────────────────────────────────────────────────────────────────────────

/// Number of symbol and variable occurrences.
pub open spec fn tsize(t: TermV) -> nat
    decreases t,
{
    match t {
        TermV::Var(_) => 1,
        TermV::App(_, _, args) => 1 + tsize_seq(args),
    }
}

pub open spec fn tsize_seq(s: Seq<TermV>) -> nat
    decreases s,
{
    if s.len() == 0 {
        0
    } else {
        tsize_seq(s.drop_last()) + tsize(s.last())
    }
}

/// The set of variables of a term.
pub open spec fn tvars(t: TermV) -> Set<VarV>
    decreases t,
{
    match t {
        TermV::Var(x) => set![x],
        TermV::App(_, _, args) => tvars_seq(args),
    }
}

pub open spec fn tvars_seq(s: Seq<TermV>) -> Set<VarV>
    decreases s,
{
    if s.len() == 0 {
        Set::empty()
    } else {
        tvars_seq(s.drop_last()).union(tvars(s.last()))
    }
}

/// The variables of a term are exactly those of one of its arguments.
pub proof fn lemma_tvars_seq(s: Seq<TermV>)
    ensures
        forall|i: int, x: VarV|
            0 <= i < s.len() && #[trigger] tvars(s[i]).contains(x) ==> tvars_seq(s).contains(x),
        forall|x: VarV| #[trigger]
            tvars_seq(s).contains(x) ==> exists|i: int| 0 <= i < s.len() && tvars(s[i]).contains(x),
    decreases s.len(),
{
    if s.len() > 0 {
        lemma_tvars_seq(s.drop_last());
        assert forall|i: int, x: VarV|
            0 <= i < s.len() && #[trigger] tvars(s[i]).contains(x) implies tvars_seq(s).contains(
            x,
        ) by {
            if i < s.len() - 1 {
                assert(s.drop_last()[i] == s[i]);
            }
        }
        assert forall|x: VarV| #[trigger] tvars_seq(s).contains(x) implies exists|i: int|
            0 <= i < s.len() && tvars(s[i]).contains(x) by {
            if tvars_seq(s.drop_last()).contains(x) {
                let i = choose|i: int|
                    0 <= i < s.drop_last().len() && tvars(s.drop_last()[i]).contains(x);
                assert(s.drop_last()[i] == s[i]);
            } else {
                assert(tvars(s[s.len() - 1]).contains(x));
            }
        }
    }
}

pub proof fn lemma_tvars_finite(t: TermV)
    ensures
        tvars(t).finite(),
    decreases t,
{
    match t {
        TermV::Var(_) => {},
        TermV::App(_, _, args) => lemma_tvars_seq_finite(args),
    }
}

pub proof fn lemma_tvars_seq_finite(s: Seq<TermV>)
    ensures
        tvars_seq(s).finite(),
    decreases s,
{
    if s.len() > 0 {
        lemma_tvars_seq_finite(s.drop_last());
        lemma_tvars_finite(s.last());
    }
}

pub proof fn lemma_tsize_pos(t: TermV)
    ensures
        tsize(t) >= 1,
{
}

/// Each argument is no larger than the whole argument list.
pub proof fn lemma_tsize_seq_elem(s: Seq<TermV>, i: int)
    requires
        0 <= i < s.len(),
    ensures
        tsize(s[i]) <= tsize_seq(s),
    decreases s.len(),
{
    if i < s.len() - 1 {
        lemma_tsize_seq_elem(s.drop_last(), i);
        assert(s.drop_last()[i] == s[i]);
    }
}

/// Size of a concatenation of argument lists.
pub proof fn lemma_tsize_seq_add(a: Seq<TermV>, b: Seq<TermV>)
    ensures
        tsize_seq(a + b) == tsize_seq(a) + tsize_seq(b),
    decreases b.len(),
{
    if b.len() == 0 {
        assert(a + b =~= a);
    } else {
        lemma_tsize_seq_add(a, b.drop_last());
        assert((a + b).drop_last() =~= a + b.drop_last());
    }
}

// ─────────────────────────────────────────────────────────────────────────
// Executable operations
// ─────────────────────────────────────────────────────────────────────────

impl Var {
    /// A copy with the same model.
    pub fn dup(&self) -> (r: Var)
        ensures
            r@ == self@,
    {
        match self {
            Var::Named(s) => Var::Named(s.clone()),
            Var::Left(i) => Var::Left(*i),
            Var::Right(i) => Var::Right(*i),
        }
    }

    /// Equality of variables.
    pub fn same(&self, other: &Var) -> (r: bool)
        ensures
            r == (self@ == other@),
    {
        match self {
            Var::Named(a) => match other {
                Var::Named(b) => {
                    let r = a.eq(b);
                    r
                },
                _ => false,
            },
            Var::Left(i) => match other {
                Var::Left(j) => *i == *j,
                _ => false,
            },
            Var::Right(i) => match other {
                Var::Right(j) => *i == *j,
                _ => false,
            },
        }
    }

    /// A named variable.
    pub fn intern(name: &str) -> (r: Var)
        ensures
            r@ == VarV::Named(name@),
    {
        Var::Named(name.to_owned())
    }
}

impl Sym {
    pub open spec fn spec_new(name: Seq<char>, pol: Polarity) -> (Seq<char>, Polarity) {
        (name, pol)
    }

    /// A symbol from a name and a polarity.
    pub fn new(name: &str, pol: Polarity) -> (r: Sym)
        ensures
            r.name@ == name@,
            r.pol == pol,
    {
        Sym { name: name.to_owned(), pol }
    }

    pub fn dup(&self) -> (r: Sym)
        ensures
            r.name@ == self.name@,
            r.pol == self.pol,
    {
        Sym { name: self.name.clone(), pol: self.pol }
    }

    /// Equality of symbols (same name, same polarity).
    pub fn same(&self, other: &Sym) -> (r: bool)
        ensures
            r == (self.name@ == other.name@ && self.pol == other.pol),
    {
        self.name == other.name && self.pol == other.pol
    }
}

impl Term {
    /// A deep copy with the same model.
    pub fn dup(&self) -> (r: Term)
        ensures
            r@ == self@,
        decreases self,
    {
        match self {
            Term::Var(v) => Term::Var(v.dup()),
            Term::App(f, args) => {
                let mut out: Vec<Term> = Vec::new();
                let mut i: usize = 0;
                #[verifier::loop_isolation(false)]
                while i < args.len()
                    invariant
                        i <= args.len(),
                        out.len() == i,
                        forall|k: int| 0 <= k < i ==> out[k]@ == args[k]@,
                    decreases args.len() - i,
                {
                    proof {
                        assert(decreases_to!(args => args[i as int]));
                    }
                    out.push(args[i].dup());
                    i += 1;
                }
                proof {
                    lemma_views_of_ext(out@, args@);
                }
                Term::App(f.dup(), out)
            },
        }
    }

    /// Structural equality of terms.
    pub fn same(&self, other: &Term) -> (r: bool)
        ensures
            r == (self@ == other@),
        decreases self,
    {
        match (self, other) {
            (Term::Var(x), Term::Var(y)) => x.same(y),
            (Term::App(f, a), Term::App(g, b)) => {
                if !f.same(g) || a.len() != b.len() {
                    proof {
                        lemma_views_of(a@);
                        lemma_views_of(b@);
                    }
                    return false;
                }
                let mut i: usize = 0;
                #[verifier::loop_isolation(false)]
                while i < a.len()
                    invariant
                        i <= a.len(),
                        a.len() == b.len(),
                        forall|k: int| 0 <= k < i ==> a[k]@ == b[k]@,
                    decreases a.len() - i,
                {
                    proof {
                        assert(decreases_to!(a => a[i as int]));
                    }
                    if !a[i].same(&b[i]) {
                        proof {
                            lemma_views_of(a@);
                            lemma_views_of(b@);
                            assert(views_of(a@)[i as int] != views_of(b@)[i as int]);
                        }
                        return false;
                    }
                    i += 1;
                }
                proof {
                    lemma_views_of_ext(a@, b@);
                }
                true
            },
            _ => false,
        }
    }

    /// A variable term with the given name.
    pub fn var(name: &str) -> (r: Term)
        ensures
            r@ == TermV::Var(VarV::Named(name@)),
    {
        Term::Var(Var::intern(name))
    }

    /// A neutral constant (a neutral symbol applied to nothing).
    pub fn constant(name: &str) -> (r: Term)
        ensures
            r@ == TermV::App(name@, Polarity::Neutral, Seq::<TermV>::empty()),
    {
        let r = Term::App(Sym::new(name, Polarity::Neutral), Vec::new());
        proof {
            assert(views_of(Seq::<Term>::empty()) =~= Seq::<TermV>::empty());
        }
        r
    }

    /// Is the term a variable?
    pub fn is_var(&self) -> (r: bool)
        ensures
            r == (self@ is Var),
    {
        match self {
            Term::Var(_) => true,
            _ => false,
        }
    }
}

/// A term built from a symbol and an argument list.
pub fn mk_app(f: Sym, args: Vec<Term>) -> (r: Term)
    ensures
        r@ == TermV::App(f.name@, f.pol, views_of(args@)),
{
    Term::App(f, args)
}

/// A variable term from an existing variable.
pub fn mk_var_interned(v: Var) -> (r: Term)
    ensures
        r@ == TermV::Var(v@),
{
    Term::Var(v)
}

/// A variable term with the given name.
pub fn mk_var(name: &str) -> (r: Term)
    ensures
        r@ == TermV::Var(VarV::Named(name@)),
{
    Term::var(name)
}

impl Clone for Term {
    fn clone(&self) -> (r: Self)
        ensures
            r@ == self@,
    {
        self.dup()
    }
}

} // verus!
