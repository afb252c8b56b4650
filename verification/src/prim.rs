//! Programs mixing combinators, numeric literals and strict numeric
//! primitives, and the values they evaluate to.
use vstd::prelude::*;

verus! {

broadcast use vstd::std_specs::vec::group_vec_axioms;

/// A program: a combinator or free atom, a numeric literal, a strict
/// primitive (`add mul eq lt inc dec`), or an application.
#[derive(Debug, PartialEq, Eq)]
pub enum Prog {
    Atom(&'static str),
    Lit(u64),
    Prim(&'static str),
    App(Box<Prog>, Box<Prog>),
}

impl Clone for Prog {
    fn clone(&self) -> (r: Self)
        ensures
            r == *self,
        decreases self,
    {
        match self {
            Prog::Atom(s) => Prog::Atom(*s),
            Prog::Lit(n) => Prog::Lit(*n),
            Prog::Prim(p) => Prog::Prim(*p),
            Prog::App(f, x) => {
                let f2 = (**f).clone();
                let x2 = (**x).clone();
                Prog::App(Box::new(f2), Box::new(x2))
            },
        }
    }
}

/// The result of running a program: a number, a truth value, or a program
/// with no strict redex left.
#[derive(Debug, PartialEq, Eq)]
pub enum Value {
    Num(u64),
    Bool(bool),
    Stuck(Prog),
}

/// An atom.
pub fn atom(s: &'static str) -> (r: Prog)
    ensures
        r == Prog::Atom(s),
{
    Prog::Atom(s)
}

/// A numeric literal.
pub fn lit(n: u64) -> (r: Prog)
    ensures
        r == Prog::Lit(n),
{
    Prog::Lit(n)
}

/// A strict primitive.
pub fn prim(p: &'static str) -> (r: Prog)
    ensures
        r == Prog::Prim(p),
{
    Prog::Prim(p)
}

/// The application `f x`.
pub fn ap(f: Prog, x: Prog) -> (r: Prog)
    ensures
        r == Prog::App(Box::new(f), Box::new(x)),
{
    Prog::App(Box::new(f), Box::new(x))
}

/// `acc p₀ p₁ …`: the parts applied one after the other, to the left.
pub open spec fn apply_all(acc: Prog, parts: Seq<Prog>) -> Prog
    decreases parts.len(),
{
    if parts.len() == 0 {
        acc
    } else {
        apply_all(Prog::App(Box::new(acc), Box::new(parts[0])), parts.drop_first())
    }
}

/// `p₀ p₁ … pₙ`, associated to the left; at least one part is needed.
pub fn ap_n(parts: Vec<Prog>) -> (r: Prog)
    requires
        parts.len() >= 1,
    ensures
        r == apply_all(parts@[0], parts@.drop_first()),
{
    let mut parts = parts;
    let ghost all = parts@;
    let mut acc = parts.remove(0);
    assert(parts@ =~= all.drop_first());
    while parts.len() > 0
        invariant
            apply_all(acc, parts@) == apply_all(all[0], all.drop_first()),
        decreases parts.len(),
    {
        let ghost before = parts@;
        let p = parts.remove(0);
        assert(parts@ =~= before.drop_first());
        acc = Prog::App(Box::new(acc), Box::new(p));
    }
    acc
}

} // verus!
