//! Small builders of terms with known models, shared by the encodings of
//! automata.
use vstd::prelude::*;
use vstd::string::{StringExecFns, StrSliceExecFns};
use crate::term::{lemma_views_of, views_of, Polarity, Sym, Term, TermV, Var, VarV};
use crate::polarised::{mk_app_str, split_symbol};

verus! {

broadcast use vstd::std_specs::vec::group_vec_axioms;

/// The constant `n`.
pub open spec fn tconst(n: Seq<char>) -> TermV {
    TermV::App(n, Polarity::Neutral, Seq::empty())
}

/// The constant written `n`, whose leading `+` or `-`, if any, is its polarity.
pub open spec fn tsym(n: Seq<char>) -> TermV {
    TermV::App(split_symbol(n).1, split_symbol(n).0, Seq::empty())
}

/// The variable `n`.
pub open spec fn tvar(n: Seq<char>) -> TermV {
    TermV::Var(VarV::Named(n))
}

/// `c · w`, written `cons(c, w)`.
pub open spec fn tcons(c: TermV, w: TermV) -> TermV {
    TermV::App(seq!['c', 'o', 'n', 's'], Polarity::Neutral, seq![c, w])
}

/// A term `name(args)` with a polarised head.
pub fn app(name: &str, pol: Polarity, args: Vec<Term>) -> (r: Term)
    ensures
        r@ == TermV::App(name@, pol, views_of(args@)),
{
    Term::App(Sym { name: String::from_str(name), pol }, args)
}

/// A term `name(args)` whose head is given as a `String`.
pub fn app_s(name: &String, pol: Polarity, args: Vec<Term>) -> (r: Term)
    ensures
        r@ == TermV::App(name@, pol, views_of(args@)),
{
    Term::App(Sym { name: name.clone(), pol }, args)
}

pub fn konst(name: &str) -> (r: Term)
    ensures
        r@ == tconst(name@),
{
    let args: Vec<Term> = Vec::new();
    proof {
        assert(views_of(args@) =~= Seq::<TermV>::empty());
    }
    app(name, Polarity::Neutral, args)
}

pub fn konst_s(name: &String) -> (r: Term)
    ensures
        r@ == tconst(name@),
{
    let args: Vec<Term> = Vec::new();
    proof {
        assert(views_of(args@) =~= Seq::<TermV>::empty());
    }
    app_s(name, Polarity::Neutral, args)
}

/// The constant written `name` (a leading sign is its polarity).
pub fn sym_s(name: &String) -> (r: Term)
    ensures
        r@ == tsym(name@),
{
    let args: Vec<Term> = Vec::new();
    proof {
        assert(views_of(args@) =~= Seq::<TermV>::empty());
    }
    mk_app_str(name.as_str(), args)
}

/// The constant written `name` (a leading sign is its polarity).
pub fn sym(name: &str) -> (r: Term)
    ensures
        r@ == tsym(name@),
{
    let args: Vec<Term> = Vec::new();
    proof {
        assert(views_of(args@) =~= Seq::<TermV>::empty());
    }
    mk_app_str(name, args)
}

pub fn var(name: &str) -> (r: Term)
    ensures
        r@ == tvar(name@),
{
    Term::Var(Var::Named(String::from_str(name)))
}

pub fn args1(a: Term) -> (r: Vec<Term>)
    ensures
        views_of(r@) == seq![a@],
{
    let r = vec![a];
    proof {
        lemma_views_of(r@);
        assert(views_of(r@) =~= seq![a@]);
    }
    r
}

pub fn args2(a: Term, b: Term) -> (r: Vec<Term>)
    ensures
        views_of(r@) == seq![a@, b@],
        r.len() == 2,
{
    let ghost (av, bv) = (a@, b@);
    let r = vec![a, b];
    proof {
        lemma_views_of(r@);
        assert(views_of(r@) =~= seq![av, bv]);
    }
    r
}

pub fn args3(a: Term, b: Term, c: Term) -> (r: Vec<Term>)
    ensures
        views_of(r@) == seq![a@, b@, c@],
{
    let ghost (av, bv, cv) = (a@, b@, c@);
    let r = vec![a, b, c];
    proof {
        lemma_views_of(r@);
        assert(views_of(r@) =~= seq![av, bv, cv]);
    }
    r
}

/// `cons(c, w)`.
pub fn cons(c: Term, w: Term) -> (r: Term)
    ensures
        r@ == tcons(c@, w@),
{
    proof {
        reveal_strlit("cons");
        assert("cons"@ =~= seq!['c', 'o', 'n', 's']);
    }
    app("cons", Polarity::Neutral, args2(c, w))
}

/// A star of two rays.
pub fn star2(a: Term, b: Term) -> (r: Vec<Term>)
    ensures
        views_of(r@) == seq![a@, b@],
        r.len() == 2,
{
    args2(a, b)
}

/// The characters of a string.
pub fn chars_of(s: &str) -> (r: Vec<char>)
    ensures
        r@ == s@,
{
    let n = s.unicode_len();
    let mut r: Vec<char> = Vec::new();
    let mut i: usize = 0;
    while i < n
        invariant
            n == s@.len(),
            i <= n,
            r@ == s@.take(i as int),
        decreases n - i,
    {
        let c = s.get_char(i);
        r.push(c);
        i += 1;
        assert(r@ =~= s@.take(i as int));
    }
    assert(r@ =~= s@);
    r
}

} // verus!
