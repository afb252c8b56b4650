//! Stars and constellations (§49.1): a star is a finite list of rays, a
//! constellation a finite list of stars. Also the star kinds used by the
//! weight ω, colours, concealment, and α-equivalence of stars.
use vstd::prelude::*;
use crate::term::{lemma_views_of, views_of, Polarity, Sym, Term, TermV, VarV};
use crate::subst::apply;
use crate::alpha::{renaming, renaming_of, seq_vars, star_var_list};
use crate::polarised::head_pol;

verus! {

broadcast use vstd::std_specs::vec::group_vec_axioms;

/// A star: a list of rays.
pub type Star = Vec<Term>;

/// A constellation: a list of stars.
pub type Constellation = Vec<Star>;

/// Model of a star.
pub open spec fn star_v(s: Seq<Term>) -> Seq<TermV> {
    views_of(s)
}

/// Model of a constellation.
pub open spec fn cons_v(c: Seq<Vec<Term>>) -> Seq<Seq<TermV>> {
    Seq::new(c.len(), |i: int| views_of(c[i]@))
}

/// Kind of a star (§77): no negative ray, only negative rays, or both.
#[derive(Debug, Clone, Copy, PartialEq, Eq, Structural)]
pub enum StarKind {
    Objective,
    Subjective,
    Animist,
}

/// A ray is subjective when its head is negative.
pub open spec fn subjective(t: TermV) -> bool {
    head_pol(t) == Polarity::Neg
}

pub open spec fn star_kind_spec(s: Seq<TermV>) -> StarKind {
    if forall|k: int| 0 <= k < s.len() ==> !subjective(#[trigger] s[k]) {
        StarKind::Objective
    } else if forall|k: int| 0 <= k < s.len() ==> subjective(#[trigger] s[k]) {
        StarKind::Subjective
    } else {
        StarKind::Animist
    }
}

pub fn star_kind(star: &Star) -> (k: StarKind)
    ensures
        k == star_kind_spec(star_v(star@)),
{
    let mut any_neg = false;
    let mut all_neg = true;
    let mut i: usize = 0;
    proof {
        lemma_views_of(star@);
    }
    while i < star.len()
        invariant
            i <= star.len(),
            any_neg == exists|k: int| 0 <= k < i && subjective(#[trigger] star_v(star@)[k]),
            all_neg == forall|k: int| 0 <= k < i ==> subjective(#[trigger] star_v(star@)[k]),
            star_v(star@).len() == star.len(),
            forall|k: int| 0 <= k < star.len() ==> star_v(star@)[k] == star[k]@,
        decreases star.len() - i,
    {
        let neg = match &star[i] {
            Term::App(f, _) => f.pol == Polarity::Neg,
            Term::Var(_) => false,
        };
        proof {
            assert(neg == subjective(star_v(star@)[i as int]));
        }
        any_neg = any_neg || neg;
        all_neg = all_neg && neg;
        i += 1;
    }
    if !any_neg {
        StarKind::Objective
    } else if all_neg {
        StarKind::Subjective
    } else {
        StarKind::Animist
    }
}

// ─────────────────────────────────────────────────────────────────────────
// Colours
// ─────────────────────────────────────────────────────────────────────────

/// The colour of a ray: its head symbol when polarised.
pub open spec fn ray_colour(t: TermV) -> Option<(Seq<char>, Polarity)> {
    match t {
        TermV::App(f, p, _) => if p != Polarity::Neutral {
            Some((f, p))
        } else {
            None
        },
        TermV::Var(_) => None,
    }
}

/// `(f, p)` is the colour of some ray of the constellation.
pub open spec fn has_colour(c: Seq<Seq<TermV>>, f: Seq<char>, p: Polarity) -> bool {
    exists|i: int, j: int|
        0 <= i < c.len() && 0 <= j < c[i].len() && ray_colour(#[trigger] c[i][j]) == Some((f, p))
}

/// Is `(f, p)` the colour of some ray of the constellation?
pub fn colour_occurs(c: &Vec<Star>, f: &Sym) -> (r: bool)
    ensures
        r == (f.pol != Polarity::Neutral && has_colour(cons_v(c@), f.name@, f.pol)),
{
    if f.pol == Polarity::Neutral {
        return false;
    }
    let mut i: usize = 0;
    while i < c.len()
        invariant
            i <= c.len(),
            f.pol != Polarity::Neutral,
            forall|a: int, b: int|
                0 <= a < i && 0 <= b < cons_v(c@)[a].len() ==> ray_colour(#[trigger] cons_v(c@)[a][b])
                    != Some((f.name@, f.pol)),
        decreases c.len() - i,
    {
        let star = &c[i];
        proof {
            lemma_views_of(star@);
            assert(cons_v(c@)[i as int] == views_of(star@));
        }
        let mut j: usize = 0;
        while j < star.len()
            invariant
                i < c.len(),
                f.pol != Polarity::Neutral,
                star == c[i as int],
                j <= star.len(),
                cons_v(c@)[i as int] == views_of(star@),
                views_of(star@).len() == star.len(),
                forall|k: int| 0 <= k < star.len() ==> views_of(star@)[k] == star[k]@,
                forall|b: int| 0 <= b < j ==> ray_colour(#[trigger] cons_v(c@)[i as int][b]) != Some(
                    (f.name@, f.pol),
                ),
            decreases star.len() - j,
        {
            let hit = match &star[j] {
                Term::App(g, _) => g.same(f),
                Term::Var(_) => false,
            };
            if hit {
                proof {
                    assert(ray_colour(cons_v(c@)[i as int][j as int]) == Some((f.name@, f.pol)));
                }
                return true;
            }
            j += 1;
        }
        i += 1;
    }
    false
}

// ─────────────────────────────────────────────────────────────────────────
// Concealment (§51)
// ─────────────────────────────────────────────────────────────────────────

/// A star survives concealment and noise filtering when it is non-empty and
/// all its rays are uncoloured.
pub open spec fn visible_star(s: Seq<TermV>) -> bool {
    s.len() > 0 && forall|k: int| 0 <= k < s.len() ==> head_pol(#[trigger] s[k]) == Polarity::Neutral
}

pub fn is_visible_star(s: &Star) -> (r: bool)
    ensures
        r == visible_star(star_v(s@)),
{
    proof {
        lemma_views_of(s@);
    }
    if s.len() == 0 {
        return false;
    }
    let mut i: usize = 0;
    while i < s.len()
        invariant
            i <= s.len(),
            star_v(s@).len() == s.len(),
            forall|k: int| 0 <= k < s.len() ==> star_v(s@)[k] == s[k]@,
            forall|k: int| 0 <= k < i ==> head_pol(#[trigger] star_v(s@)[k]) == Polarity::Neutral,
        decreases s.len() - i,
    {
        let neutral = match &s[i] {
            Term::App(f, _) => f.pol == Polarity::Neutral,
            Term::Var(_) => true,
        };
        if !neutral {
            proof {
                assert(head_pol(star_v(s@)[i as int]) != Polarity::Neutral);
            }
            return false;
        }
        i += 1;
    }
    true
}

/// The visible part `↨♭ Ψ` of an interaction space.
pub open spec fn visible(psi: Seq<Seq<TermV>>) -> Seq<Seq<TermV>> {
    psi.filter(|s: Seq<TermV>| visible_star(s))
}

/// `↨♭ Ψ`: keep the non-empty, fully uncoloured stars, in order.
pub fn conceal_and_filter(psi: &Vec<Star>) -> (r: Vec<Star>)
    ensures
        cons_v(r@) == visible(cons_v(psi@)),
{
    let mut out: Vec<Star> = Vec::new();
    let mut i: usize = 0;
    while i < psi.len()
        invariant
            i <= psi.len(),
            cons_v(out@) == cons_v(psi@).subrange(0, i as int).filter(
                |s: Seq<TermV>| visible_star(s),
            ),
        decreases psi.len() - i,
    {
        let ghost before = out@;
        let keep = is_visible_star(&psi[i]);
        if keep {
            out.push(copy_star(&psi[i]));
        }
        proof {
            let cv = cons_v(psi@);
            let f = |s: Seq<TermV>| visible_star(s);
            reveal_with_fuel(Seq::<Seq<TermV>>::filter, 1);
            assert(cv.subrange(0, i + 1).drop_last() =~= cv.subrange(0, i as int));
            assert(cv.subrange(0, i + 1).last() == cv[i as int]);
            assert(cv[i as int] == views_of(psi[i as int]@));
            if keep {
                assert(cons_v(out@) =~= cons_v(before).push(cv[i as int]));
            } else {
                assert(cons_v(out@) =~= cons_v(before));
            }
        }
        i += 1;
    }
    proof {
        assert(cons_v(psi@).subrange(0, i as int) =~= cons_v(psi@));
    }
    out
}

/// A copy of a star with the same model.
pub fn copy_star(s: &Star) -> (r: Star)
    ensures
        star_v(r@) == star_v(s@),
        r.len() == s.len(),
{
    let mut out: Vec<Term> = Vec::new();
    let mut i: usize = 0;
    while i < s.len()
        invariant
            i <= s.len(),
            out.len() == i,
            forall|k: int| 0 <= k < i ==> out[k]@ == s[k]@,
        decreases s.len() - i,
    {
        out.push(s[i].dup());
        i += 1;
    }
    proof {
        crate::term::lemma_views_of_ext(out@, s@);
    }
    out
}

/// A copy of a constellation with the same model.
pub fn copy_constellation(c: &Vec<Star>) -> (r: Vec<Star>)
    ensures
        cons_v(r@) == cons_v(c@),
{
    let mut out: Vec<Star> = Vec::new();
    let mut i: usize = 0;
    while i < c.len()
        invariant
            i <= c.len(),
            out.len() == i,
            forall|k: int| 0 <= k < i ==> star_v(out[k]@) == star_v(c[k]@),
        decreases c.len() - i,
    {
        out.push(copy_star(&c[i]));
        i += 1;
    }
    proof {
        assert(cons_v(out@) =~= cons_v(c@));
    }
    out
}

// ─────────────────────────────────────────────────────────────────────────
// Renaming a whole star, canonical forms and α-equivalence
// ─────────────────────────────────────────────────────────────────────────

/// A star with its variables renamed, in order of first occurrence, to one
/// side's machine variables.
pub open spec fn renamed_star(s: Seq<TermV>, left: bool) -> Seq<TermV> {
    Seq::new(s.len(), |k: int| apply(s[k], renaming(seq_vars(s), left)))
}

/// Rename a star's variables apart (left or right side).
pub fn rename_star(s: &Star, left: bool) -> (r: Star)
    ensures
        star_v(r@) == renamed_star(star_v(s@), left),
        r.len() == s.len(),
{
    let vs = star_var_list(s);
    let rho = renaming_of(&vs, left);
    let mut out: Vec<Term> = Vec::new();
    let mut i: usize = 0;
    proof {
        lemma_views_of(s@);
    }
    while i < s.len()
        invariant
            i <= s.len(),
            out.len() == i,
            rho@ == renaming(seq_vars(star_v(s@)), left),
            star_v(s@).len() == s.len(),
            forall|k: int| 0 <= k < s.len() ==> star_v(s@)[k] == s[k]@,
            forall|k: int| 0 <= k < i ==> out[k]@ == apply(s[k]@, rho@),
        decreases s.len() - i,
    {
        out.push(rho.apply(&s[i]));
        i += 1;
    }
    proof {
        lemma_views_of(out@);
        assert(star_v(out@) =~= renamed_star(star_v(s@), left));
    }
    out
}

/// Two stars are α-equivalent when their canonical renamings coincide.
pub open spec fn alpha_equiv(a: Seq<TermV>, b: Seq<TermV>) -> bool {
    renamed_star(a, true) == renamed_star(b, true)
}

/// α-equivalence of stars (same rays in the same order, up to renaming variables).
pub fn stars_alpha_equiv(a: &Star, b: &Star) -> (r: bool)
    ensures
        r == alpha_equiv(star_v(a@), star_v(b@)),
{
    let ca = rename_star(a, true);
    let cb = rename_star(b, true);
    stars_same(&ca, &cb)
}

/// Structural equality of stars.
pub fn stars_same(a: &Star, b: &Star) -> (r: bool)
    ensures
        r == (star_v(a@) == star_v(b@)),
{
    proof {
        lemma_views_of(a@);
        lemma_views_of(b@);
    }
    if a.len() != b.len() {
        return false;
    }
    let mut i: usize = 0;
    while i < a.len()
        invariant
            i <= a.len(),
            a.len() == b.len(),
            star_v(a@).len() == a.len(),
            star_v(b@).len() == b.len(),
            forall|k: int| 0 <= k < a.len() ==> star_v(a@)[k] == a[k]@,
            forall|k: int| 0 <= k < b.len() ==> star_v(b@)[k] == b[k]@,
            forall|k: int| 0 <= k < i ==> a[k]@ == b[k]@,
        decreases a.len() - i,
    {
        if !a[i].same(&b[i]) {
            proof {
                assert(star_v(a@)[i as int] != star_v(b@)[i as int]);
            }
            return false;
        }
        i += 1;
    }
    proof {
        assert(star_v(a@) =~= star_v(b@));
    }
    true
}

/// α-equivalence is an equivalence relation.
pub proof fn lemma_alpha_equiv_equivalence(a: Seq<TermV>, b: Seq<TermV>, c: Seq<TermV>)
    ensures
        alpha_equiv(a, a),
        alpha_equiv(a, b) == alpha_equiv(b, a),
        alpha_equiv(a, b) && alpha_equiv(b, c) ==> alpha_equiv(a, c),
{
}

impl Term {
    /// The written head symbol (`+f`, `-f` or `f`), or `None` for a variable.
    pub fn head(&self) -> (r: Option<String>)
        ensures
            r is None <==> self@ is Var,
            r is Some ==> r.unwrap()@ == crate::polarised::sign(head_pol(self@)) + self@->App_0,
    {
        match self {
            Term::Var(_) => None,
            Term::App(f, _) => {
                let s = crate::polarised::PolarisedSymbol { polarity: f.pol, neutral: f.name.clone() };
                Some(s.name())
            },
        }
    }

    /// The arguments of an application (none for a variable), copied.
    pub fn args(&self) -> (r: Vec<Term>)
        ensures
            views_of(r@) == match self@ {
                TermV::App(_, _, a) => a,
                TermV::Var(_) => Seq::empty(),
            },
    {
        match self {
            Term::Var(_) => {
                let r: Vec<Term> = Vec::new();
                assert(views_of(r@) =~= Seq::<TermV>::empty());
                r
            },
            Term::App(_, args) => {
                let r = copy_star(args);
                r
            },
        }
    }
}

} // verus!
