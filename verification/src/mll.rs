//! MLL proof-structures as constellations (§66–§71): the structure itself,
//! path addresses, the translation `Φ^comp = Φ^ax ⊎ Φ^cut`, the cut-reduction
//! trajectory, switchings and the classical Danos–Regnier test, and finite
//! behaviours with the multiplicative unit.
//!
//! Path addresses are built from the neutral symbols `1`, `r` (constants) and
//! `·` (binary): `1 · t` steps into the left premise, `r · t` into the right.
//! A vertex `u` is written by its decimal number.
use vstd::prelude::*;
use vstd::string::StringExecFns;
use crate::term::{lemma_views_of, views_of, Polarity, Sym, Term, TermV, Var, VarV};
use crate::constellation::{cons_v, star_v, alpha_equiv, renamed_star, stars_alpha_equiv, Constellation, Star};
use crate::alpha::{alpha_unifiable, alpha_unify};
use crate::display::{digits, usize_text};
use vstd::arithmetic::power2::{pow2, lemma2_to64, lemma_pow2_unfold, lemma_pow2_strictly_increases};

verus! {

broadcast use vstd::std_specs::vec::group_vec_axioms;

/// A vertex of a proof-structure.
#[derive(Debug, Clone, Copy, PartialEq, Eq, Hash, PartialOrd, Ord, Structural)]
pub struct VId(pub u32);

/// A link (hyperedge) of a proof-structure.
#[derive(Debug, Clone, Copy, PartialEq, Eq, Structural)]
pub enum LinkKind {
    /// Axiom link with its two conclusions.
    Ax { left: VId, right: VId },
    /// Cut link between two premises.
    Cut { left: VId, right: VId },
    /// Tensor link: two premises and a conclusion.
    Tensor { left: VId, right: VId, output: VId },
    /// Par link: two premises and a conclusion.
    Par { left: VId, right: VId, output: VId },
}

/// A proof-structure: its list of links. Vertices are those the links name.
#[derive(Debug)]
pub struct ProofStructure {
    pub links: Vec<LinkKind>,
}

impl Clone for ProofStructure {
    fn clone(&self) -> (r: Self)
        ensures
            r.links@ == self.links@,
    {
        ProofStructure { links: copy_links(&self.links) }
    }
}

fn copy_links(links: &Vec<LinkKind>) -> (r: Vec<LinkKind>)
    ensures
        r@ == links@,
{
    let mut r: Vec<LinkKind> = Vec::new();
    let mut i: usize = 0;
    while i < links.len()
        invariant
            i <= links.len(),
            r@ == links@.take(i as int),
        decreases links.len() - i,
    {
        r.push(links[i]);
        i += 1;
        assert(r@ =~= links@.take(i as int));
    }
    assert(r@ =~= links@);
    r
}

// ─────────────────────────────────────────────────────────────────────────
// Vertex roles
// ─────────────────────────────────────────────────────────────────────────

/// `v` is produced by the link: an axiom conclusion or a connective's conclusion.
pub open spec fn is_output(l: LinkKind, v: VId) -> bool {
    match l {
        LinkKind::Ax { left, right } => left == v || right == v,
        LinkKind::Tensor { output, .. } => output == v,
        LinkKind::Par { output, .. } => output == v,
        LinkKind::Cut { .. } => false,
    }
}

/// `v` is a premise of a tensor or par link.
pub open spec fn is_sub_input(l: LinkKind, v: VId) -> bool {
    match l {
        LinkKind::Tensor { left, right, .. } => left == v || right == v,
        LinkKind::Par { left, right, .. } => left == v || right == v,
        _ => false,
    }
}

/// `v` is an end of a cut link.
pub open spec fn is_cut_input(l: LinkKind, v: VId) -> bool {
    match l {
        LinkKind::Cut { left, right } => left == v || right == v,
        _ => false,
    }
}

/// `v` is a conclusion: produced by some link, premise of no tensor or par,
/// and (when `count_cuts`) end of no cut.
pub open spec fn is_conclusion(links: Seq<LinkKind>, v: VId, count_cuts: bool) -> bool {
    &&& exists|i: int| 0 <= i < links.len() && is_output(#[trigger] links[i], v)
    &&& forall|i: int| 0 <= i < links.len() ==> !is_sub_input(#[trigger] links[i], v)
    &&& count_cuts ==> forall|i: int| 0 <= i < links.len() ==> !is_cut_input(#[trigger] links[i], v)
}

/// Strictly increasing by vertex number.
pub open spec fn sorted_ids(s: Seq<VId>) -> bool {
    forall|i: int, j: int| 0 <= i < j < s.len() ==> (#[trigger] s[i]).0 < (#[trigger] s[j]).0
}

fn has_sub_input(links: &Vec<LinkKind>, v: VId) -> (r: bool)
    ensures
        r == exists|i: int| 0 <= i < links.len() && is_sub_input(#[trigger] links@[i], v),
{
    let mut i: usize = 0;
    while i < links.len()
        invariant
            i <= links.len(),
            forall|k: int| 0 <= k < i ==> !is_sub_input(#[trigger] links@[k], v),
        decreases links.len() - i,
    {
        let hit = match links[i] {
            LinkKind::Tensor { left, right, .. } => left == v || right == v,
            LinkKind::Par { left, right, .. } => left == v || right == v,
            _ => false,
        };
        if hit {
            return true;
        }
        i += 1;
    }
    false
}

fn has_cut_input(links: &Vec<LinkKind>, v: VId) -> (r: bool)
    ensures
        r == exists|i: int| 0 <= i < links.len() && is_cut_input(#[trigger] links@[i], v),
{
    let mut i: usize = 0;
    while i < links.len()
        invariant
            i <= links.len(),
            forall|k: int| 0 <= k < i ==> !is_cut_input(#[trigger] links@[k], v),
        decreases links.len() - i,
    {
        let hit = match links[i] {
            LinkKind::Cut { left, right } => left == v || right == v,
            _ => false,
        };
        if hit {
            return true;
        }
        i += 1;
    }
    false
}

/// Insert into a strictly increasing list, keeping it so.
fn insert_sorted(s: &mut Vec<VId>, x: VId)
    requires
        sorted_ids(old(s)@),
    ensures
        sorted_ids(final(s)@),
        forall|y: VId| final(s)@.contains(y) <==> (old(s)@.contains(y) || y == x),
{
    let mut i: usize = 0;
    while i < s.len() && s[i].0 < x.0
        invariant
            i <= s.len(),
            s@ == old(s)@,
            forall|k: int| 0 <= k < i ==> (#[trigger] s@[k]).0 < x.0,
        decreases s.len() - i,
    {
        i += 1;
    }
    if i < s.len() && s[i].0 == x.0 {
        assert(s@[i as int] == x);
        assert(s@.contains(x));
        return;
    }
    let ghost before = s@;
    assert(before == old(s)@);
    s.insert(i, x);
    assert forall|y: VId| #[trigger] s@.contains(y) <==> (old(s)@.contains(y) || y == x) by {
        if s@.contains(y) {
            let k = choose|k: int| 0 <= k < s@.len() && s@[k] == y;
            if k < i {
                assert(before[k] == y);
            } else if k > i {
                assert(before[k - 1] == y);
            }
        }
        if before.contains(y) {
            let k = choose|k: int| 0 <= k < before.len() && before[k] == y;
            if k < i {
                assert(s@[k] == y);
            } else {
                assert(s@[k + 1] == y);
            }
        }
        if y == x {
            assert(s@[i as int] == y);
        }
    }
}

/// The conclusions, in increasing order.
fn conclusion_list(links: &Vec<LinkKind>, count_cuts: bool) -> (r: Vec<VId>)
    ensures
        sorted_ids(r@),
        forall|v: VId| r@.contains(v) <==> is_conclusion(links@, v, count_cuts),
{
    let mut out: Vec<VId> = Vec::new();
    let mut i: usize = 0;
    while i < links.len()
        invariant
            i <= links.len(),
            sorted_ids(out@),
            forall|v: VId| out@.contains(v) <==> (
                (exists|k: int| 0 <= k < i && is_output(#[trigger] links@[k], v))
                && (forall|k: int| 0 <= k < links.len() ==> !is_sub_input(#[trigger] links@[k], v))
                && (count_cuts ==> forall|k: int| 0 <= k < links.len() ==> !is_cut_input(#[trigger] links@[k], v))),
        decreases links.len() - i,
    {
        let l = links[i];
        let (a, b, two) = match l {
            LinkKind::Ax { left, right } => (left, right, true),
            LinkKind::Tensor { output, .. } => (output, output, false),
            LinkKind::Par { output, .. } => (output, output, false),
            LinkKind::Cut { left, right } => (left, right, false),
        };
        let is_cut = match l {
            LinkKind::Cut { .. } => true,
            _ => false,
        };
        let ghost before = out@;
        if !is_cut {
            let ok_a = !has_sub_input(links, a) && (!count_cuts || !has_cut_input(links, a));
            if ok_a {
                insert_sorted(&mut out, a);
            }
            if two {
                let ok_b = !has_sub_input(links, b) && (!count_cuts || !has_cut_input(links, b));
                if ok_b {
                    insert_sorted(&mut out, b);
                }
            }
        }
        i += 1;
        assert forall|v: VId| out@.contains(v) <==> (
            (exists|k: int| 0 <= k < i && is_output(#[trigger] links@[k], v))
            && (forall|k: int| 0 <= k < links.len() ==> !is_sub_input(#[trigger] links@[k], v))
            && (count_cuts ==> forall|k: int| 0 <= k < links.len() ==> !is_cut_input(#[trigger] links@[k], v))) by {
            if exists|k: int| 0 <= k < i && is_output(#[trigger] links@[k], v) {
                let k = choose|k: int| 0 <= k < i && is_output(#[trigger] links@[k], v);
                if k < i - 1 {
                    assert(exists|k2: int| 0 <= k2 < i - 1 && is_output(#[trigger] links@[k2], v));
                }
            }
            if exists|k: int| 0 <= k < i - 1 && is_output(#[trigger] links@[k], v) {
                let k = choose|k: int| 0 <= k < i - 1 && is_output(#[trigger] links@[k], v);
                assert(0 <= k < i && is_output(links@[k], v));
            }
        }
    }
    out
}

impl ProofStructure {
    /// The empty proof-structure.
    pub fn new() -> (r: Self)
        ensures
            r.links@ == Seq::<LinkKind>::empty(),
    {
        ProofStructure { links: Vec::new() }
    }

    /// Adds a link at the end.
    pub fn add_link(&mut self, link: LinkKind)
        ensures
            final(self).links@ == old(self).links@.push(link),
    {
        self.links.push(link);
    }

    /// The axiom links, in order.
    pub fn axioms(&self) -> (r: Vec<LinkKind>)
        ensures
            r@ == self.links@.filter(|l: LinkKind| l is Ax),
    {
        filter_links(&self.links, true)
    }

    /// The cut links, in order.
    pub fn cuts(&self) -> (r: Vec<LinkKind>)
        ensures
            r@ == self.links@.filter(|l: LinkKind| l is Cut),
    {
        filter_links(&self.links, false)
    }

    /// The conclusions, in increasing order without repetition: vertices
    /// produced by a link that are premises of no tensor, par or cut.
    pub fn conclusions(&self) -> (r: Vec<VId>)
        ensures
            sorted_ids(r@),
            forall|v: VId| r@.contains(v) <==> is_conclusion(self.links@, v, true),
    {
        conclusion_list(&self.links, true)
    }
}

/// Axiom links (`axioms`) or cut links (`!axioms`), in order.
fn filter_links(links: &Vec<LinkKind>, axioms: bool) -> (r: Vec<LinkKind>)
    ensures
        axioms ==> r@ == links@.filter(|l: LinkKind| l is Ax),
        !axioms ==> r@ == links@.filter(|l: LinkKind| l is Cut),
{
    let ghost f = if axioms {
        |l: LinkKind| l is Ax
    } else {
        |l: LinkKind| l is Cut
    };
    let mut r: Vec<LinkKind> = Vec::new();
    let mut i: usize = 0;
    while i < links.len()
        invariant
            i <= links.len(),
            f == (if axioms {
                |l: LinkKind| l is Ax
            } else {
                |l: LinkKind| l is Cut
            }),
            r@ == links@.take(i as int).filter(f),
        decreases links.len() - i,
    {
        let l = links[i];
        let keep = match l {
            LinkKind::Ax { .. } => axioms,
            LinkKind::Cut { .. } => !axioms,
            _ => false,
        };
        proof {
            reveal_with_fuel(Seq::<LinkKind>::filter, 1);
            assert(links@.take(i + 1).drop_last() =~= links@.take(i as int));
        }
        if keep {
            r.push(l);
        }
        i += 1;
    }
    assert(links@.take(links.len() as int) =~= links@);
    r
}

// ─────────────────────────────────────────────────────────────────────────
// Terms of the basis
// ─────────────────────────────────────────────────────────────────────────

/// The written name of a vertex.
pub open spec fn vname(v: VId) -> Seq<char> {
    digits(v.0 as nat)
}

/// The variable `X`.
pub open spec fn xv() -> TermV {
    TermV::Var(VarV::Named(seq!['X']))
}

pub open spec fn cnst(name: Seq<char>) -> TermV {
    TermV::App(name, Polarity::Neutral, Seq::empty())
}

/// `1 · t`.
pub open spec fn step_l(t: TermV) -> TermV {
    TermV::App(seq!['·'], Polarity::Neutral, seq![cnst(seq!['1']), t])
}

/// `r · t`.
pub open spec fn step_r(t: TermV) -> TermV {
    TermV::App(seq!['·'], Polarity::Neutral, seq![cnst(seq!['r']), t])
}

/// The ray `v(t)` with the given polarity.
pub open spec fn vray(v: VId, p: Polarity, t: TermV) -> TermV {
    TermV::App(vname(v), p, seq![t])
}

pub(crate) fn vertex_name(v: VId) -> (r: String)
    ensures
        r@ == vname(v),
{
    usize_text(v.0 as usize)
}

pub(crate) fn var_x() -> (r: Term)
    ensures
        r@ == xv(),
{
    proof {
        reveal_strlit("X");
        assert("X"@ =~= seq!['X']);
    }
    Term::Var(Var::Named(String::from_str("X")))
}

pub(crate) fn constant(name: &str) -> (r: Term)
    ensures
        r@ == cnst(name@),
{
    let args: Vec<Term> = Vec::new();
    proof {
        assert(views_of(args@) =~= Seq::<TermV>::empty());
    }
    Term::App(Sym { name: String::from_str(name), pol: Polarity::Neutral }, args)
}

pub(crate) fn app2(name: &str, a: Term, b: Term) -> (r: Term)
    ensures
        r@ == TermV::App(name@, Polarity::Neutral, seq![a@, b@]),
{
    let args = vec![a, b];
    proof {
        lemma_views_of(args@);
        assert(views_of(args@) =~= seq![args@[0]@, args@[1]@]);
    }
    Term::App(Sym { name: String::from_str(name), pol: Polarity::Neutral }, args)
}

/// `1 · t`, the step into a left premise.
pub fn path_left(t: Term) -> (r: Term)
    ensures
        r@ == step_l(t@),
{
    proof {
        reveal_strlit("1");
        reveal_strlit("·");
        assert("1"@ =~= seq!['1']);
        assert("·"@ =~= seq!['·']);
    }
    let one = constant("1");
    app2("·", one, t)
}

/// `r · t`, the step into a right premise.
pub fn path_right(t: Term) -> (r: Term)
    ensures
        r@ == step_r(t@),
{
    proof {
        reveal_strlit("r");
        reveal_strlit("·");
        assert("r"@ =~= seq!['r']);
        assert("·"@ =~= seq!['·']);
    }
    let r = constant("r");
    app2("·", r, t)
}

fn vertex_ray(v: VId, pol: Polarity, t: Term) -> (r: Term)
    ensures
        r@ == vray(v, pol, t@),
{
    let args = vec![t];
    proof {
        lemma_views_of(args@);
        assert(views_of(args@) =~= seq![args@[0]@]);
    }
    Term::App(Sym { name: vertex_name(v), pol }, args)
}

/// The positive ray `+v(t)`.
pub fn pos_vertex_ray(v: VId, t: Term) -> (r: Term)
    ensures
        r@ == vray(v, Polarity::Pos, t@),
{
    vertex_ray(v, Polarity::Pos, t)
}

/// The negative ray `-v(t)`.
pub fn neg_vertex_ray(v: VId, t: Term) -> (r: Term)
    ensures
        r@ == vray(v, Polarity::Neg, t@),
{
    vertex_ray(v, Polarity::Neg, t)
}

/// The neutral ray `v(t)`.
pub fn neu_vertex_ray(v: VId, t: Term) -> (r: Term)
    ensures
        r@ == vray(v, Polarity::Neutral, t@),
{
    vertex_ray(v, Polarity::Neutral, t)
}

// ─────────────────────────────────────────────────────────────────────────
// Φ^cut
// ─────────────────────────────────────────────────────────────────────────

/// `Φ^cut` of the links: one star `[-l(X), -r(X)]` per cut `(l, r)`, in order.
pub open spec fn phi_cut_spec(links: Seq<LinkKind>) -> Seq<Seq<TermV>>
    decreases links.len(),
{
    if links.len() == 0 {
        Seq::empty()
    } else {
        let rest = phi_cut_spec(links.drop_last());
        match links.last() {
            LinkKind::Cut { left, right } => rest.push(
                seq![vray(left, Polarity::Neg, xv()), vray(right, Polarity::Neg, xv())],
            ),
            _ => rest,
        }
    }
}

/// Pushing a star whose model is known extends the model of a constellation.
pub(crate) proof fn lemma_cons_v_push(c: Seq<Vec<Term>>, s: Vec<Term>)
    ensures
        cons_v(c.push(s)) == cons_v(c).push(views_of(s@)),
{
    assert(cons_v(c.push(s)) =~= cons_v(c).push(views_of(s@)));
}

pub(crate) proof fn lemma_star2(s: Vec<Term>)
    requires
        s.len() == 2,
    ensures
        views_of(s@) == seq![s@[0]@, s@[1]@],
{
    lemma_views_of(s@);
    assert(views_of(s@) =~= seq![s@[0]@, s@[1]@]);
}

/// `Φ^cut`: one star `[-l(X), -r(X)]` per cut link `(l, r)`.
pub fn phi_cut(ps: &ProofStructure) -> (r: Constellation)
    ensures
        cons_v(r@) == phi_cut_spec(ps.links@),
{
    let links = &ps.links;
    let mut out: Vec<Star> = Vec::new();
    let mut i: usize = 0;
    while i < links.len()
        invariant
            i <= links.len(),
            cons_v(out@) == phi_cut_spec(links@.take(i as int)),
        decreases links.len() - i,
    {
        proof {
            assert(links@.take(i + 1).drop_last() =~= links@.take(i as int));
        }
        match links[i] {
            LinkKind::Cut { left, right } => {
                let a = neg_vertex_ray(left, var_x());
                let b = neg_vertex_ray(right, var_x());
                let star = vec![a, b];
                proof {
                    lemma_star2(star);
                    lemma_cons_v_push(out@, star);
                }
                out.push(star);
            },
            _ => {},
        }
        i += 1;
    }
    assert(links@.take(links.len() as int) =~= links@);
    out
}

// ─────────────────────────────────────────────────────────────────────────
// Path addresses (§66.7)
// ─────────────────────────────────────────────────────────────────────────

/// The premises `(left, right)` of the link when it is a tensor or par whose
/// conclusion is `c`.
pub open spec fn conn_premises(l: LinkKind, c: VId) -> Option<(VId, VId)> {
    match l {
        LinkKind::Tensor { left, right, output } => if output == c {
            Some((left, right))
        } else {
            None
        },
        LinkKind::Par { left, right, output } => if output == c {
            Some((left, right))
        } else {
            None
        },
        _ => None,
    }
}

/// The premises of the first connective (in link order) whose conclusion is `c`.
pub open spec fn producer(links: Seq<LinkKind>, c: VId) -> Option<(VId, VId)>
    decreases links.len(),
{
    if links.len() == 0 {
        None
    } else {
        match conn_premises(links[0], c) {
            Some(p) => Some(p),
            None => producer(links.drop_first(), c),
        }
    }
}

/// `target` lies above `root`: it is `root`, or it lies above a premise of a
/// connective whose conclusion is `root`, within `fuel` steps.
pub open spec fn reach(links: Seq<LinkKind>, root: VId, target: VId, fuel: nat) -> bool
    decreases fuel,
{
    root == target || (fuel > 0 && exists|i: int|
        0 <= i < links.len() && (#[trigger] conn_premises(links[i], root)) is Some && (reach(
            links,
            conn_premises(links[i], root).unwrap().0,
            target,
            (fuel - 1) as nat,
        ) || reach(links, conn_premises(links[i], root).unwrap().1, target, (fuel - 1) as nat)))
}

/// The path from `c` down to `target`: `X` at `target`, `1 · t` through a left
/// premise, `r · t` through a right one; the first connective producing each
/// vertex is followed, the left premise tried first.
pub open spec fn walk(links: Seq<LinkKind>, c: VId, target: VId, fuel: nat) -> Option<TermV>
    decreases fuel,
{
    if c == target {
        Some(xv())
    } else if fuel == 0 {
        None
    } else {
        match producer(links, c) {
            None => None,
            Some((l, r)) => {
                let wl = walk(links, l, target, (fuel - 1) as nat);
                let wr = walk(links, r, target, (fuel - 1) as nat);
                if reach(links, l, target, links.len()) && wl is Some {
                    Some(step_l(wl.unwrap()))
                } else if reach(links, r, target, links.len()) && wr is Some {
                    Some(step_r(wr.unwrap()))
                } else {
                    None
                }
            },
        }
    }
}

/// `c` is the least conclusion (cuts ignored) from which `target` is reached.
pub open spec fn first_walk(links: Seq<LinkKind>, target: VId, c: VId) -> bool {
    &&& is_conclusion(links, c, false)
    &&& walk(links, c, target, links.len()) is Some
    &&& forall|d: VId| #[trigger] is_conclusion(links, d, false) && d.0 < c.0 ==> walk(
        links,
        d,
        target,
        links.len(),
    ) is None
}

/// `pAddr(v)`: the conclusion above `v` (cuts ignored) and the path to `v`.
pub open spec fn path_addr_spec(links: Seq<LinkKind>, target: VId) -> Option<(VId, TermV)> {
    if is_conclusion(links, target, false) {
        Some((target, xv()))
    } else if exists|c: VId| first_walk(links, target, c) {
        let c = choose|c: VId| first_walk(links, target, c);
        Some((c, walk(links, c, target, links.len()).unwrap()))
    } else {
        None
    }
}

/// `addr(v) = c(pAddr(v))`.
pub open spec fn addr_spec(links: Seq<LinkKind>, v: VId) -> Option<TermV> {
    match path_addr_spec(links, v) {
        Some((c, p)) => Some(vray(c, Polarity::Neutral, p)),
        None => None,
    }
}

fn premises_of(l: LinkKind, c: VId) -> (r: Option<(VId, VId)>)
    ensures
        r == conn_premises(l, c),
{
    match l {
        LinkKind::Tensor { left, right, output } => if output == c {
            Some((left, right))
        } else {
            None
        },
        LinkKind::Par { left, right, output } => if output == c {
            Some((left, right))
        } else {
            None
        },
        _ => None,
    }
}

fn producer_of(links: &Vec<LinkKind>, c: VId) -> (r: Option<(VId, VId)>)
    ensures
        r == producer(links@, c),
{
    let mut i: usize = 0;
    assert(links@.skip(0) =~= links@);
    while i < links.len()
        invariant
            i <= links.len(),
            producer(links@, c) == producer(links@.skip(i as int), c),
        decreases links.len() - i,
    {
        assert(links@.skip(i as int).drop_first() =~= links@.skip(i + 1));
        assert(links@.skip(i as int)[0] == links@[i as int]);
        match premises_of(links[i], c) {
            Some(p) => {
                return Some(p);
            },
            None => {},
        }
        i += 1;
    }
    assert(links@.skip(i as int) =~= Seq::<LinkKind>::empty());
    None
}

fn reach_exec(links: &Vec<LinkKind>, root: VId, target: VId, fuel: usize) -> (r: bool)
    ensures
        r == reach(links@, root, target, fuel as nat),
    decreases fuel,
{
    if root == target {
        return true;
    }
    if fuel == 0 {
        return false;
    }
    let mut i: usize = 0;
    while i < links.len()
        invariant
            i <= links.len(),
            fuel > 0,
            root != target,
            forall|k: int|
                0 <= k < i ==> !((#[trigger] conn_premises(links@[k], root)) is Some && (reach(
                    links@,
                    conn_premises(links@[k], root).unwrap().0,
                    target,
                    (fuel - 1) as nat,
                ) || reach(
                    links@,
                    conn_premises(links@[k], root).unwrap().1,
                    target,
                    (fuel - 1) as nat,
                ))),
        decreases links.len() - i,
    {
        match premises_of(links[i], root) {
            Some((l, r)) => {
                if reach_exec(links, l, target, fuel - 1) || reach_exec(links, r, target, fuel - 1) {
                    return true;
                }
            },
            None => {},
        }
        i += 1;
    }
    false
}

fn walk_down(links: &Vec<LinkKind>, c: VId, target: VId, fuel: usize) -> (r: Option<Term>)
    ensures
        match r {
            None => walk(links@, c, target, fuel as nat) is None,
            Some(t) => walk(links@, c, target, fuel as nat) == Some(t@),
        },
    decreases fuel,
{
    if c == target {
        return Some(var_x());
    }
    if fuel == 0 {
        return None;
    }
    match producer_of(links, c) {
        None => None,
        Some((l, r)) => {
            let n = links.len();
            if reach_exec(links, l, target, n) {
                match walk_down(links, l, target, fuel - 1) {
                    Some(inner) => {
                        return Some(path_left(inner));
                    },
                    None => {},
                }
            }
            if reach_exec(links, r, target, n) {
                match walk_down(links, r, target, fuel - 1) {
                    Some(inner) => {
                        return Some(path_right(inner));
                    },
                    None => {},
                }
            }
            None
        },
    }
}

/// `pAddr(v)`: the conclusion `c` above `target` (cuts ignored) and the path
/// from `c` down to `target`; the least such conclusion is taken.
pub fn path_addr(ps: &ProofStructure, target: VId) -> (r: Option<(VId, Term)>)
    ensures
        match r {
            None => path_addr_spec(ps.links@, target) is None,
            Some((c, t)) => path_addr_spec(ps.links@, target) == Some((c, t@)),
        },
{
    let links = &ps.links;
    let cs = conclusion_list(links, false);
    let mut j: usize = 0;
    while j < cs.len()
        invariant
            j <= cs.len(),
            links@ == ps.links@,
            forall|v: VId| cs@.contains(v) <==> is_conclusion(links@, v, false),
            forall|k: int| 0 <= k < j ==> cs@[k] != target,
        decreases cs.len() - j,
    {
        if cs[j] == target {
            assert(cs@.contains(target));
            assert(is_conclusion(links@, target, false));
            let x = var_x();
            assert(path_addr_spec(ps.links@, target) == Some((target, x@)));
            return Some((target, x));
        }
        j += 1;
    }
    assert(!cs@.contains(target));
    let n = links.len();
    let mut i: usize = 0;
    while i < cs.len()
        invariant
            i <= cs.len(),
            links@ == ps.links@,
            n == links.len(),
            sorted_ids(cs@),
            forall|v: VId| cs@.contains(v) <==> is_conclusion(links@, v, false),
            !is_conclusion(links@, target, false),
            forall|k: int| 0 <= k < i ==> walk(links@, #[trigger] cs@[k], target, n as nat) is None,
        decreases cs.len() - i,
    {
        let c = cs[i];
        match walk_down(links, c, target, n) {
            Some(t) => {
                proof {
                    assert(cs@.contains(c));
                    assert forall|d: VId| #[trigger]
                        is_conclusion(links@, d, false) && d.0 < c.0 implies walk(
                        links@,
                        d,
                        target,
                        links@.len(),
                    ) is None by {
                        assert(cs@.contains(d));
                        let k = choose|k: int| 0 <= k < cs@.len() && cs@[k] == d;
                        if k >= i {
                            if k > i {
                                assert(cs@[i as int].0 < cs@[k].0);
                            }
                        }
                    }
                    assert(first_walk(links@, target, c));
                    let c2 = choose|c2: VId| first_walk(links@, target, c2);
                    if c2.0 < c.0 {
                        assert(is_conclusion(links@, c2, false));
                    }
                    if c.0 < c2.0 {
                        assert(is_conclusion(links@, c, false));
                    }
                    assert(c2 == c);
                    assert(exists|c3: VId| first_walk(links@, target, c3));
                    assert(walk(links@, c, target, links@.len()) == Some(t@));
                    assert(path_addr_spec(ps.links@, target) == Some((c, t@)));
                }
                return Some((c, t));
            },
            None => {},
        }
        i += 1;
    }
    proof {
        assert forall|c: VId| !first_walk(links@, target, c) by {
            if first_walk(links@, target, c) {
                assert(cs@.contains(c));
                let k = choose|k: int| 0 <= k < cs@.len() && cs@[k] == c;
                assert(walk(links@, cs@[k], target, n as nat) is None);
            }
        }
    }
    None
}

/// `addr(v) = c(pAddr(v))`.
pub fn addr(ps: &ProofStructure, v: VId) -> (r: Option<Term>)
    ensures
        match r {
            None => addr_spec(ps.links@, v) is None,
            Some(t) => addr_spec(ps.links@, v) == Some(t@),
        },
{
    match path_addr(ps, v) {
        Some((c, p)) => Some(neu_vertex_ray(c, p)),
        None => None,
    }
}

// ─────────────────────────────────────────────────────────────────────────
// Φ^ax and Φ^comp (§66.11)
// ─────────────────────────────────────────────────────────────────────────

/// `c` is an end of some cut.
pub open spec fn is_cut_vertex(links: Seq<LinkKind>, c: VId) -> bool {
    exists|i: int| 0 <= i < links.len() && is_cut_input(#[trigger] links[i], c)
}

/// `μ(addr(v))`: the address of `v` (`v(X)` when it has none), made positive
/// when its conclusion is an end of a cut.
pub open spec fn ax_ray(links: Seq<LinkKind>, v: VId) -> TermV {
    let (c, p) = match path_addr_spec(links, v) {
        Some(cp) => cp,
        None => (v, xv()),
    };
    vray(
        c,
        if is_cut_vertex(links, c) {
            Polarity::Pos
        } else {
            Polarity::Neutral
        },
        p,
    )
}

/// `Φ^ax` of the axiom links among `part`, addresses taken in `links`.
pub open spec fn phi_ax_from(links: Seq<LinkKind>, part: Seq<LinkKind>) -> Seq<Seq<TermV>>
    decreases part.len(),
{
    if part.len() == 0 {
        Seq::empty()
    } else {
        let rest = phi_ax_from(links, part.drop_last());
        match part.last() {
            LinkKind::Ax { left, right } => rest.push(seq![ax_ray(links, left), ax_ray(links, right)]),
            _ => rest,
        }
    }
}

fn mu_ray(ps: &ProofStructure, v: VId) -> (r: Term)
    ensures
        r@ == ax_ray(ps.links@, v),
{
    let (c, p) = match path_addr(ps, v) {
        Some(cp) => cp,
        None => (v, var_x()),
    };
    if has_cut_input(&ps.links, c) {
        pos_vertex_ray(c, p)
    } else {
        neu_vertex_ray(c, p)
    }
}

/// `Φ^ax`: one star `[μ(addr(l)), μ(addr(r))]` per axiom link `(l, r)`, in order.
pub fn phi_ax(ps: &ProofStructure) -> (r: Constellation)
    ensures
        cons_v(r@) == phi_ax_from(ps.links@, ps.links@),
{
    let links = &ps.links;
    let mut out: Vec<Star> = Vec::new();
    let mut i: usize = 0;
    while i < links.len()
        invariant
            i <= links.len(),
            links == &ps.links,
            cons_v(out@) == phi_ax_from(links@, links@.take(i as int)),
        decreases links.len() - i,
    {
        proof {
            assert(links@.take(i + 1).drop_last() =~= links@.take(i as int));
        }
        match links[i] {
            LinkKind::Ax { left, right } => {
                let a = mu_ray(ps, left);
                let b = mu_ray(ps, right);
                let star = vec![a, b];
                proof {
                    lemma_star2(star);
                    lemma_cons_v_push(out@, star);
                }
                out.push(star);
            },
            _ => {},
        }
        i += 1;
    }
    assert(links@.take(links.len() as int) =~= links@);
    out
}

/// `Φ^comp = Φ^ax ⊎ Φ^cut`.
pub fn phi_comp(ps: &ProofStructure) -> (r: Constellation)
    ensures
        cons_v(r@) == phi_ax_from(ps.links@, ps.links@) + phi_cut_spec(ps.links@),
{
    let a = phi_ax(ps);
    let b = phi_cut(ps);
    const_union(&a, &b)
}

// ─────────────────────────────────────────────────────────────────────────
// Full head polarisation (§68.15)
// ─────────────────────────────────────────────────────────────────────────

/// The ray with its head made positive; a variable is left as it is.
pub open spec fn positive_head(t: TermV) -> TermV {
    match t {
        TermV::App(f, _, args) => TermV::App(f, Polarity::Pos, args),
        TermV::Var(x) => TermV::Var(x),
    }
}

pub(crate) fn polarise_ray(r: &Term) -> (out: Term)
    ensures
        out@ == positive_head(r@),
{
    match r {
        Term::App(f, args) => {
            let mut a2: Vec<Term> = Vec::new();
            let mut i: usize = 0;
            while i < args.len()
                invariant
                    i <= args.len(),
                    a2.len() == i,
                    forall|k: int| 0 <= k < i ==> (#[trigger] a2@[k])@ == args@[k]@,
                decreases args.len() - i,
            {
                let c = args[i].clone();
                a2.push(c);
                i += 1;
            }
            proof {
                crate::term::lemma_views_of_ext(a2@, args@);
            }
            Term::App(Sym { name: f.name.clone(), pol: Polarity::Pos }, a2)
        },
        Term::Var(v) => Term::Var(v.dup()),
    }
}

/// `+Φ`: every ray's head made positive.
pub fn full_head_polarise(phi: &Constellation) -> (r: Constellation)
    ensures
        r.len() == phi.len(),
        forall|i: int| 0 <= i < phi.len() ==> (#[trigger] cons_v(r@)[i]) == cons_v(phi@)[i].map_values(
            |t: TermV| positive_head(t),
        ),
{
    let mut out: Vec<Star> = Vec::new();
    let mut i: usize = 0;
    while i < phi.len()
        invariant
            i <= phi.len(),
            out.len() == i,
            forall|k: int| 0 <= k < i ==> (#[trigger] cons_v(out@)[k]) == cons_v(phi@)[k].map_values(
                |t: TermV| positive_head(t),
            ),
        decreases phi.len() - i,
    {
        let s = &phi[i];
        let mut ns: Vec<Term> = Vec::new();
        let mut j: usize = 0;
        proof {
            lemma_views_of(s@);
        }
        while j < s.len()
            invariant
                j <= s.len(),
                ns.len() == j,
                views_of(s@).len() == s.len(),
                forall|k: int| 0 <= k < s.len() ==> #[trigger] views_of(s@)[k] == s@[k]@,
                forall|k: int| 0 <= k < j ==> #[trigger] ns@[k]@ == positive_head(s@[k]@),
            decreases s.len() - j,
        {
            let t = polarise_ray(&s[j]);
            ns.push(t);
            j += 1;
        }
        proof {
            lemma_views_of(ns@);
            assert(views_of(ns@) =~= views_of(s@).map_values(|t: TermV| positive_head(t)));
            lemma_cons_v_push(out@, ns);
        }
        let ghost old_out = out@;
        out.push(ns);
        proof {
            assert forall|k: int| 0 <= k < i + 1 implies (#[trigger] cons_v(out@)[k]) == cons_v(
                phi@,
            )[k].map_values(|t: TermV| positive_head(t)) by {
                if k < i {
                    assert(cons_v(out@)[k] == cons_v(old_out)[k]);
                }
            }
        }
        i += 1;
    }
    out
}

// ─────────────────────────────────────────────────────────────────────────
// Finite behaviours, union, roots, units (§69, §71)
// ─────────────────────────────────────────────────────────────────────────

/// A pre-behaviour: a finite list of constellations.
#[derive(Debug)]
pub struct Behaviour(pub Vec<Constellation>);

impl Behaviour {
    /// The empty behaviour.
    pub fn empty() -> (r: Self)
        ensures
            r.0@.len() == 0,
    {
        Behaviour(Vec::new())
    }

    /// The behaviour with the given members.
    pub fn new(constellations: Vec<Constellation>) -> (r: Self)
        ensures
            r.0@ == constellations@,
    {
        Behaviour(constellations)
    }

    /// Number of members.
    pub fn len(&self) -> (r: usize)
        ensures
            r == self.0@.len(),
    {
        self.0.len()
    }

    /// No member.
    pub fn is_empty(&self) -> (r: bool)
        ensures
            r == (self.0@.len() == 0),
    {
        self.0.len() == 0
    }

    /// The members, as a slice to walk over.
    pub fn iter(&self) -> (r: &[Constellation])
        ensures
            r@ == self.0@,
    {
        self.0.as_slice()
    }
}

fn copy_stars(src: &Vec<Star>, out: &mut Vec<Star>)
    ensures
        cons_v(final(out)@) == cons_v(old(out)@) + cons_v(src@),
{
    let ghost start = out@;
    let mut i: usize = 0;
    while i < src.len()
        invariant
            i <= src.len(),
            cons_v(out@) == cons_v(start) + cons_v(src@.take(i as int)),
        decreases src.len() - i,
    {
        let s = crate::constellation::copy_star(&src[i]);
        proof {
            lemma_cons_v_push(out@, s);
            assert(cons_v(src@.take(i + 1)) =~= cons_v(src@.take(i as int)).push(views_of(src@[i as int]@)));
        }
        out.push(s);
        i += 1;
        assert(cons_v(out@) =~= cons_v(start) + cons_v(src@.take(i as int)));
    }
    assert(src@.take(src.len() as int) =~= src@);
}

/// `Φ₁ ⊎ Φ₂`: the stars of the first, then those of the second.
pub fn const_union(phi1: &Constellation, phi2: &Constellation) -> (r: Constellation)
    ensures
        cons_v(r@) == cons_v(phi1@) + cons_v(phi2@),
{
    let mut out: Vec<Star> = Vec::new();
    assert(cons_v(out@) =~= Seq::<Seq<TermV>>::empty());
    copy_stars(phi1, &mut out);
    copy_stars(phi2, &mut out);
    assert(cons_v(out@) =~= cons_v(phi1@) + cons_v(phi2@));
    out
}

/// A ray is a root when its head is neutral (a variable counts as neutral).
pub open spec fn is_root(t: TermV) -> bool {
    match t {
        TermV::App(_, p, _) => p == Polarity::Neutral,
        TermV::Var(_) => true,
    }
}

/// The roots of a star, in order.
pub open spec fn roots_of_star(s: Seq<TermV>) -> Seq<TermV> {
    s.filter(|t: TermV| is_root(t))
}

/// `Roots(Φ)`: the neutral rays of all stars, star by star, in order.
pub open spec fn roots_spec(c: Seq<Seq<TermV>>) -> Seq<TermV>
    decreases c.len(),
{
    if c.len() == 0 {
        Seq::empty()
    } else {
        roots_spec(c.drop_last()) + roots_of_star(c.last())
    }
}

/// `Roots(Φ)`: the star of the neutral rays of `Φ`.
pub fn roots(phi: &Constellation) -> (r: Star)
    ensures
        star_v(r@) == roots_spec(cons_v(phi@)),
{
    let ghost c = cons_v(phi@);
    let mut out: Vec<Term> = Vec::new();
    let mut i: usize = 0;
    while i < phi.len()
        invariant
            i <= phi.len(),
            c == cons_v(phi@),
            views_of(out@) == roots_spec(c.take(i as int)),
        decreases phi.len() - i,
    {
        let s = &phi[i];
        proof {
            lemma_views_of(s@);
            assert(c.take(i + 1).drop_last() =~= c.take(i as int));
            assert(c[i as int] == views_of(s@));
        }
        let ghost base = views_of(out@);
        let mut j: usize = 0;
        while j < s.len()
            invariant
                j <= s.len(),
                views_of(s@).len() == s.len(),
                forall|k: int| 0 <= k < s.len() ==> #[trigger] views_of(s@)[k] == s@[k]@,
                views_of(out@) == base + roots_of_star(views_of(s@).take(j as int)),
            decreases s.len() - j,
        {
            let keep = match &s[j] {
                Term::App(f, _) => f.pol == Polarity::Neutral,
                Term::Var(_) => true,
            };
            proof {
                reveal_with_fuel(Seq::<TermV>::filter, 1);
                assert(views_of(s@).take(j + 1).drop_last() =~= views_of(s@).take(j as int));
            }
            if keep {
                let t = s[j].clone();
                let ghost before = out@;
                out.push(t);
                proof {
                    assert(out@.drop_last() =~= before);
                }
            }
            j += 1;
            assert(views_of(out@) =~= base + roots_of_star(views_of(s@).take(j as int)));
        }
        proof {
            assert(views_of(s@).take(s.len() as int) =~= views_of(s@));
        }
        i += 1;
        assert(views_of(out@) =~= roots_spec(c.take(i as int)));
    }
    assert(c.take(phi.len() as int) =~= c);
    out
}

/// `A ⊙ B` of member models: for each member of `a` in order, its union with
/// each member of `b` in order.
pub open spec fn pre_tensor_spec(a: Seq<Seq<Seq<TermV>>>, b: Seq<Seq<Seq<TermV>>>) -> Seq<Seq<Seq<TermV>>>
    decreases a.len(),
{
    if a.len() == 0 {
        Seq::empty()
    } else {
        pre_tensor_spec(a.drop_last(), b) + b.map_values(|p2: Seq<Seq<TermV>>| a.last() + p2)
    }
}

/// Models of the members of a behaviour.
pub open spec fn members(b: Behaviour) -> Seq<Seq<Seq<TermV>>> {
    Seq::new(b.0@.len(), |i: int| cons_v(b.0@[i]@))
}

/// `A ⊙ B = { Φ₁ ⊎ Φ₂ | Φ₁ ∈ A, Φ₂ ∈ B }`.
pub fn pre_tensor(a: &Behaviour, b: &Behaviour) -> (r: Behaviour)
    ensures
        members(r) == pre_tensor_spec(members(*a), members(*b)),
{
    let ghost ma = members(*a);
    let ghost mb = members(*b);
    let mut out: Vec<Constellation> = Vec::new();
    let mut i: usize = 0;
    while i < a.0.len()
        invariant
            i <= a.0@.len(),
            ma == members(*a),
            mb == members(*b),
            Seq::new(out@.len(), |k: int| cons_v(out@[k]@)) == pre_tensor_spec(ma.take(i as int), mb),
        decreases a.0@.len() - i,
    {
        let ghost start = Seq::new(out@.len(), |k: int| cons_v(out@[k]@));
        let mut j: usize = 0;
        while j < b.0.len()
            invariant
                j <= b.0@.len(),
                i < a.0@.len(),
                ma == members(*a),
                mb == members(*b),
                Seq::new(out@.len(), |k: int| cons_v(out@[k]@)) == start + mb.take(j as int).map_values(
                    |p2: Seq<Seq<TermV>>| ma[i as int] + p2,
                ),
            decreases b.0@.len() - j,
        {
            let u = const_union(&a.0[i], &b.0[j]);
            let ghost before = out@;
            out.push(u);
            proof {
                assert(Seq::new(out@.len(), |k: int| cons_v(out@[k]@)) =~= Seq::new(before.len(), |k: int| cons_v(before[k]@)).push(cons_v(u@)));
                assert(mb.take(j + 1).map_values(|p2: Seq<Seq<TermV>>| ma[i as int] + p2) =~= mb.take(j as int).map_values(
                    |p2: Seq<Seq<TermV>>| ma[i as int] + p2,
                ).push(ma[i as int] + mb[j as int]));
            }
            j += 1;
        }
        proof {
            assert(mb.take(b.0@.len() as int) =~= mb);
            assert(ma.take(i + 1).drop_last() =~= ma.take(i as int));
            assert(ma.take(i + 1).last() == ma[i as int]);
        }
        i += 1;
    }
    proof {
        assert(ma.take(a.0@.len() as int) =~= ma);
    }
    let r = Behaviour(out);
    assert(members(r) =~= pre_tensor_spec(ma, mb));
    r
}

/// The three orthogonality relations.
#[derive(Debug, Clone, Copy, PartialEq, Eq, Structural)]
pub enum Orth {
    Fin,
    One,
    Roots,
}

/// `Φ₁ ⊥^fin Φ₂`: the execution of `Φ₁ ⊎ Φ₂` is finite, which it always is
/// for finite constellations.
pub fn orth_fin(phi1: &Constellation, phi2: &Constellation) -> (r: bool)
    ensures
        r,
{
    true
}

/// The unit `1 = {∅}`: the behaviour whose only member is the empty constellation.
pub fn mll_one() -> (r: Behaviour)
    ensures
        r.0@.len() == 1,
        r.0@[0]@.len() == 0,
{
    let empty: Constellation = Vec::new();
    Behaviour(vec![empty])
}

/// `Φ ∈ 1` exactly when `Φ` is empty.
pub fn in_mll_one(phi: &Constellation) -> (r: bool)
    ensures
        r == (phi@.len() == 0),
{
    phi.len() == 0
}


// ─────────────────────────────────────────────────────────────────────────
// Switchings and the classical Danos–Regnier test (§68)
// ─────────────────────────────────────────────────────────────────────────

/// A switching: one choice per par link, in link order; `true` keeps the left
/// premise, `false` the right one.
#[derive(Debug, Clone, PartialEq, Eq)]
pub struct Switching {
    pub par_choices: Vec<bool>,
}

/// Number of par links.
pub open spec fn par_count(links: Seq<LinkKind>) -> nat
    decreases links.len(),
{
    if links.len() == 0 {
        0
    } else {
        par_count(links.drop_last()) + if links.last() is Par {
            1nat
        } else {
            0nat
        }
    }
}

/// Bit `i` of `mask` is set.
pub open spec fn nth_bit(mask: nat, i: nat) -> bool
    decreases i,
{
    if i == 0 {
        mask % 2 == 1
    } else {
        nth_bit(mask / 2, (i - 1) as nat)
    }
}

/// The choices of switching number `mask`: the `i`-th par keeps its left
/// premise exactly when bit `i` of `mask` is clear.
pub open spec fn switching_choices(mask: nat, k: nat) -> Seq<bool> {
    Seq::new(k, |i: int| !nth_bit(mask, i as nat))
}

fn count_pars(links: &Vec<LinkKind>) -> (k: usize)
    ensures
        k == par_count(links@),
{
    let mut k: usize = 0;
    let mut i: usize = 0;
    while i < links.len()
        invariant
            i <= links.len(),
            k == par_count(links@.take(i as int)),
            k <= i,
        decreases links.len() - i,
    {
        assert(links@.take(i + 1).drop_last() =~= links@.take(i as int));
        match links[i] {
            LinkKind::Par { .. } => {
                k += 1;
            },
            _ => {},
        }
        i += 1;
    }
    assert(links@.take(links.len() as int) =~= links@);
    k
}

pub(crate) fn choices_of(mask: usize, k: usize) -> (r: Vec<bool>)
    ensures
        r@ == switching_choices(mask as nat, k as nat),
{
    let mut r: Vec<bool> = Vec::new();
    let mut bits: usize = mask;
    let mut i: usize = 0;
    while i < k
        invariant
            i <= k,
            r.len() == i,
            forall|j: int| 0 <= j < i ==> r@[j] == !nth_bit(mask as nat, j as nat),
            forall|t: nat| #[trigger] nth_bit(bits as nat, t) == nth_bit(mask as nat, (i + t) as nat),
        decreases k - i,
    {
        assert(nth_bit(bits as nat, 0) == nth_bit(mask as nat, i as nat));
        r.push(bits % 2 == 0);
        let ghost old_bits = bits;
        bits = bits / 2;
        assert forall|t: nat| #[trigger] nth_bit(bits as nat, t) == nth_bit(mask as nat, ((i + 1) + t) as nat) by {
            assert(nth_bit(old_bits as nat, t + 1) == nth_bit(mask as nat, (i + (t + 1)) as nat));
        }
        i += 1;
    }
    assert(r@ =~= switching_choices(mask as nat, k as nat));
    r
}

/// All `2^k` switchings of a structure with `k` par links, switching number
/// `m` keeping the left premise of the `i`-th par exactly when bit `i` of `m`
/// is clear.
pub fn all_switchings(ps: &ProofStructure) -> (r: Vec<Switching>)
    requires
        pow2(par_count(ps.links@)) <= usize::MAX,
    ensures
        r.len() == pow2(par_count(ps.links@)),
        forall|m: int| 0 <= m < r.len() ==> (#[trigger] r@[m]).par_choices@ == switching_choices(
            m as nat,
            par_count(ps.links@),
        ),
{
    let k = count_pars(&ps.links);
    let mut total: usize = 1;
    let mut j: usize = 0;
    proof {
        lemma2_to64();
    }
    while j < k
        invariant
            j <= k,
            k == par_count(ps.links@),
            total == pow2(j as nat),
            pow2(k as nat) <= usize::MAX,
        decreases k - j,
    {
        proof {
            lemma_pow2_unfold((j + 1) as nat);
            if j + 1 < k {
                lemma_pow2_strictly_increases((j + 1) as nat, k as nat);
            }
        }
        total = total * 2;
        j += 1;
    }
    let mut out: Vec<Switching> = Vec::new();
    let mut m: usize = 0;
    while m < total
        invariant
            m <= total,
            k == par_count(ps.links@),
            total == pow2(k as nat),
            out.len() == m,
            forall|q: int| 0 <= q < m ==> (#[trigger] out@[q]).par_choices@ == switching_choices(
                q as nat,
                k as nat,
            ),
        decreases total - m,
    {
        let c = choices_of(m, k);
        out.push(Switching { par_choices: c });
        m += 1;
    }
    out
}

/// The vertices a link names, in field order.
pub open spec fn link_vertices(l: LinkKind) -> Seq<VId> {
    match l {
        LinkKind::Ax { left, right } => seq![left, right],
        LinkKind::Cut { left, right } => seq![left, right],
        LinkKind::Tensor { left, right, output } => seq![left, right, output],
        LinkKind::Par { left, right, output } => seq![left, right, output],
    }
}

/// The vertices of a structure.
pub open spec fn vertex_set(links: Seq<LinkKind>) -> Set<VId> {
    Set::new(|v: VId| exists|i: int| 0 <= i < links.len() && (#[trigger] link_vertices(links[i])).contains(v))
}

/// The choice for the `j`-th par: that of the switching, or left when it has none.
pub open spec fn choice_at(sw: Seq<bool>, j: nat) -> bool {
    if j < sw.len() {
        sw[j as int]
    } else {
        true
    }
}

/// The edges of the switching graph: `l — r` for an axiom, `kept — out` for a
/// par, `l — out` and `r — out` for a tensor; none for a cut.
pub open spec fn switch_edges(links: Seq<LinkKind>, sw: Seq<bool>) -> Seq<(VId, VId)>
    decreases links.len(),
{
    if links.len() == 0 {
        Seq::empty()
    } else {
        let rest = switch_edges(links.drop_last(), sw);
        match links.last() {
            LinkKind::Ax { left, right } => rest.push((left, right)),
            LinkKind::Par { left, right, output } => {
                let kept = if choice_at(sw, par_count(links.drop_last())) {
                    left
                } else {
                    right
                };
                rest.push((kept, output))
            },
            LinkKind::Tensor { left, right, output } => rest.push((left, output)).push((right, output)),
            LinkKind::Cut { .. } => rest,
        }
    }
}

/// `a` and `b` are joined by an edge.
pub open spec fn adjacent(e: Seq<(VId, VId)>, a: VId, b: VId) -> bool {
    exists|i: int| 0 <= i < e.len() && ((#[trigger] e[i]) == (a, b) || e[i] == (b, a))
}

/// The vertices within `k` edges of `start`.
pub open spec fn within(e: Seq<(VId, VId)>, start: VId, k: nat) -> Set<VId>
    decreases k,
{
    if k == 0 {
        set![start]
    } else {
        let w = within(e, start, (k - 1) as nat);
        w.union(Set::new(|b: VId| exists|a: VId| #[trigger] w.contains(a) && adjacent(e, a, b)))
    }
}

/// The switching graph is a tree: connected (every vertex within `|V|` edges of
/// the first vertex of the first link) and with `|V| − 1` edges; an empty
/// structure passes.
pub open spec fn switching_graph_ok(links: Seq<LinkKind>, sw: Seq<bool>) -> bool {
    let vs = vertex_set(links);
    let e = switch_edges(links, sw);
    links.len() == 0 || (vs.subset_of(within(e, link_vertices(links[0])[0], vs.len()))
        && e.len() + 1 == vs.len())
}

/// What a list holds after a push.
pub(crate) proof fn lemma_push_contains(s: Seq<VId>, x: VId)
    ensures
        forall|y: VId| #[trigger] s.push(x).contains(y) <==> (s.contains(y) || y == x),
{
    assert forall|y: VId| #[trigger] s.push(x).contains(y) <==> (s.contains(y) || y == x) by {
        if s.push(x).contains(y) {
            let k = choose|k: int| 0 <= k < s.len() + 1 && #[trigger] s.push(x)[k] == y;
            if k < s.len() {
                assert(s[k] == y);
            }
        }
        if s.contains(y) {
            let k = choose|k: int| 0 <= k < s.len() && #[trigger] s[k] == y;
            assert(s.push(x)[k] == y);
        }
        if y == x {
            assert(s.push(x)[s.len() as int] == y);
        }
    }
}

pub(crate) fn vid_in(s: &Vec<VId>, x: VId) -> (r: bool)
    ensures
        r == s@.contains(x),
{
    let mut i: usize = 0;
    while i < s.len()
        invariant
            i <= s.len(),
            forall|k: int| 0 <= k < i ==> s@[k] != x,
        decreases s.len() - i,
    {
        if s[i] == x {
            return true;
        }
        i += 1;
    }
    false
}

fn link_vertex_vec(l: LinkKind) -> (r: Vec<VId>)
    ensures
        r@ == link_vertices(l),
{
    match l {
        LinkKind::Ax { left, right } => vec![left, right],
        LinkKind::Cut { left, right } => vec![left, right],
        LinkKind::Tensor { left, right, output } => vec![left, right, output],
        LinkKind::Par { left, right, output } => vec![left, right, output],
    }
}

proof fn lemma_vertices_extend(links: Seq<LinkKind>, i: int, start: Seq<VId>, vs: Seq<VId>, out: Seq<VId>)
    requires
        0 <= i < links.len(),
        forall|v: VId| start.contains(v) <==> exists|k: int| 0 <= k < i && (#[trigger] link_vertices(links[k])).contains(v),
        vs == link_vertices(links[i]),
        forall|v: VId| out.contains(v) <==> (start.contains(v) || vs.contains(v)),
    ensures
        forall|v: VId| out.contains(v) <==> exists|k: int| 0 <= k < i + 1 && (#[trigger] link_vertices(links[k])).contains(v),
{
    assert forall|v: VId| out.contains(v) <==> exists|k: int| 0 <= k < i + 1 && (#[trigger] link_vertices(links[k])).contains(v) by {
        if exists|k: int| 0 <= k < i + 1 && (#[trigger] link_vertices(links[k])).contains(v) {
            let k = choose|k: int| 0 <= k < i + 1 && (#[trigger] link_vertices(links[k])).contains(v);
            if k < i {
                assert(start.contains(v));
            } else {
                assert(vs.contains(v));
            }
        }
        if out.contains(v) {
            if start.contains(v) {
                let k = choose|k: int| 0 <= k < i && (#[trigger] link_vertices(links[k])).contains(v);
                assert(0 <= k < i + 1 && link_vertices(links[k]).contains(v));
            } else {
                assert(link_vertices(links[i]).contains(v));
            }
        }
    }
}

/// The vertices, without repetition.
#[verifier::spinoff_prover]
#[verifier::rlimit(30)]
fn vertices_of(links: &Vec<LinkKind>) -> (r: Vec<VId>)
    ensures
        r@.no_duplicates(),
        r@.to_set() == vertex_set(links@),
{
    let mut out: Vec<VId> = Vec::new();
    let mut i: usize = 0;
    while i < links.len()
        invariant
            i <= links.len(),
            out@.no_duplicates(),
            forall|v: VId| out@.contains(v) <==> exists|k: int| 0 <= k < i && (#[trigger] link_vertices(links@[k])).contains(v),
        decreases links.len() - i,
    {
        let vs = link_vertex_vec(links[i]);
        let ghost start = out@;
        assert(forall|v: VId| start.contains(v) <==> exists|k: int| 0 <= k < i && (#[trigger] link_vertices(links@[k])).contains(v));
        assert(vs@ == link_vertices(links@[i as int]));
        let mut j: usize = 0;
        while j < vs.len()
            invariant
                j <= vs.len(),
                out@.no_duplicates(),
                forall|v: VId| out@.contains(v) <==> (start.contains(v) || vs@.take(j as int).contains(v)),
            decreases vs.len() - j,
        {
            let v = vs[j];
            let ghost before = out@;
            proof {
                lemma_push_contains(before, v);
                lemma_push_contains(vs@.take(j as int), v);
                assert(vs@.take(j + 1) =~= vs@.take(j as int).push(v));
            }
            let present = vid_in(&out, v);
            if !present {
                out.push(v);
            }
            assert(present ==> out@ == before);
            assert(!present ==> out@ == before.push(v));
            assert(forall|w: VId| before.contains(w) <==> (start.contains(w) || vs@.take(j as int).contains(w)));
            assert forall|w: VId| out@.contains(w) <==> (start.contains(w) || vs@.take(j + 1).contains(w)) by {
                assert(vs@.take(j + 1).contains(w) <==> (vs@.take(j as int).contains(w) || w == v));
                if !present {
                    assert(out@.contains(w) <==> (before.contains(w) || w == v));
                }
            }
            j += 1;
        }
        assert(vs@.take(vs.len() as int) =~= vs@);
        proof {
            lemma_vertices_extend(links@, i as int, start, vs@, out@);
        }
        i += 1;
    }
    assert(out@.to_set() =~= vertex_set(links@));
    out
}

fn switch_edge_vec(links: &Vec<LinkKind>, sw: &Vec<bool>) -> (r: Vec<(VId, VId)>)
    ensures
        r@ == switch_edges(links@, sw@),
{
    let mut out: Vec<(VId, VId)> = Vec::new();
    let mut pars: usize = 0;
    let mut i: usize = 0;
    while i < links.len()
        invariant
            i <= links.len(),
            pars == par_count(links@.take(i as int)),
            pars <= i,
            out@ == switch_edges(links@.take(i as int), sw@),
        decreases links.len() - i,
    {
        assert(links@.take(i + 1).drop_last() =~= links@.take(i as int));
        match links[i] {
            LinkKind::Ax { left, right } => {
                out.push((left, right));
            },
            LinkKind::Par { left, right, output } => {
                let keep_left = if pars < sw.len() {
                    sw[pars]
                } else {
                    true
                };
                let kept = if keep_left {
                    left
                } else {
                    right
                };
                out.push((kept, output));
                pars += 1;
            },
            LinkKind::Tensor { left, right, output } => {
                out.push((left, output));
                out.push((right, output));
            },
            LinkKind::Cut { .. } => {},
        }
        i += 1;
    }
    assert(links@.take(links.len() as int) =~= links@);
    out
}

/// One more round of the search: everything within one more edge.
pub(crate) fn widen(e: &Vec<(VId, VId)>, start: VId, reached: &Vec<VId>, Ghost(k): Ghost<nat>) -> (r: Vec<VId>)
    requires
        reached@.to_set() == within(e@, start, k),
    ensures
        r@.to_set() == within(e@, start, k + 1),
{
    let ghost w = within(e@, start, k);
    let mut next: Vec<VId> = Vec::new();
    let mut i: usize = 0;
    while i < reached.len()
        invariant
            i <= reached.len(),
            next@ == reached@.take(i as int),
        decreases reached.len() - i,
    {
        next.push(reached[i]);
        i += 1;
        assert(next@ =~= reached@.take(i as int));
    }
    assert(next@ =~= reached@);
    let mut j: usize = 0;
    while j < e.len()
        invariant
            j <= e.len(),
            reached@.to_set() == w,
            w == within(e@, start, k),
            forall|v: VId| #[trigger] next@.contains(v) <==> (w.contains(v) || exists|a: VId|
                w.contains(a) && adjacent(e@.take(j as int), a, v)),
        decreases e.len() - j,
    {
        let (a, b) = e[j];
        let ghost before = next@;
        let a_in = vid_in(reached, a);
        let b_in = vid_in(reached, b);
        proof {
            lemma_push_contains(before, b);
        }
        if a_in && !vid_in(&next, b) {
            next.push(b);
        }
        let ghost mid = next@;
        proof {
            lemma_push_contains(mid, a);
        }
        assert(a_in ==> mid.contains(b));
        assert(forall|x: VId| before.contains(x) ==> mid.contains(x));
        if b_in && !vid_in(&next, a) {
            next.push(a);
        }
        assert(a_in ==> next@.contains(b));
        assert(b_in ==> next@.contains(a));
        assert(forall|x: VId| mid.contains(x) ==> next@.contains(x));
        assert(forall|x: VId| before.contains(x) ==> next@.contains(x));
        assert(forall|x: VId| next@.contains(x) ==> (before.contains(x) || (a_in && x == b) || (b_in && x == a)));
        assert forall|v: VId| #[trigger] next@.contains(v) <==> (w.contains(v) || exists|x: VId|
            w.contains(x) && adjacent(e@.take(j + 1), x, v)) by {
            assert(e@.take(j + 1)[j as int] == (a, b));
            if next@.contains(v) {
                if !before.contains(v) {
                    if v == b && a_in {
                        assert(reached@.contains(a));
                        assert(w.contains(a) && adjacent(e@.take(j + 1), a, v));
                    } else {
                        assert(v == a && b_in);
                        assert(reached@.contains(b));
                        assert(w.contains(b) && adjacent(e@.take(j + 1), b, v));
                    }
                } else if !w.contains(v) {
                    let x = choose|x: VId| w.contains(x) && adjacent(e@.take(j as int), x, v);
                    let q = choose|q: int| 0 <= q < j && ((#[trigger] e@.take(j as int)[q]) == (x, v) || e@.take(j as int)[q] == (v, x));
                    assert(e@.take(j + 1)[q] == e@.take(j as int)[q]);
                    assert(adjacent(e@.take(j + 1), x, v));
                }
            }
            if exists|x: VId| w.contains(x) && adjacent(e@.take(j + 1), x, v) {
                let x = choose|x: VId| w.contains(x) && adjacent(e@.take(j + 1), x, v);
                let q = choose|q: int| 0 <= q < j + 1 && ((#[trigger] e@.take(j + 1)[q]) == (x, v) || e@.take(j + 1)[q] == (v, x));
                if q < j {
                    assert(e@.take(j as int)[q] == e@.take(j + 1)[q]);
                    assert(adjacent(e@.take(j as int), x, v));
                    assert(before.contains(v));
                } else {
                    assert(reached@.to_set().contains(x));
                    assert(reached@.contains(x));
                    if (a, b) == (x, v) {
                        assert(next@.contains(v));
                    } else {
                        assert(next@.contains(v));
                    }
                }
            }
            if before.contains(v) {
                assert(next@.contains(v));
            }
        }
        j += 1;
    }
    assert(e@.take(e.len() as int) =~= e@);
    assert(next@.to_set() =~= within(e@, start, k + 1));
    next
}

fn switching_graph_correct(links: &Vec<LinkKind>, sw: &Vec<bool>) -> (r: bool)
    ensures
        r == switching_graph_ok(links@, sw@),
{
    if links.len() == 0 {
        return true;
    }
    let vs = vertices_of(links);
    let e = switch_edge_vec(links, sw);
    proof {
        vs@.unique_seq_to_set();
    }
    let n = vs.len();
    let start = link_vertex_vec(links[0])[0];
    let mut reached: Vec<VId> = vec![start];
    let mut k: usize = 0;
    assert(reached@.to_set() =~= within(e@, start, 0));
    while k < n
        invariant
            k <= n,
            reached@.to_set() == within(e@, start, k as nat),
        decreases n - k,
    {
        reached = widen(&e, start, &reached, Ghost(k as nat));
        k += 1;
    }
    let mut all = true;
    let mut i: usize = 0;
    while i < n
        invariant
            i <= n,
            n == vs.len(),
            all == forall|q: int| 0 <= q < i ==> reached@.contains(#[trigger] vs@[q]),
        decreases n - i,
    {
        if !vid_in(&reached, vs[i]) {
            all = false;
        }
        i += 1;
    }
    proof {
        let ws = within(e@, start, n as nat);
        let vset = vertex_set(links@);
        if all {
            assert forall|v: VId| vset.contains(v) implies ws.contains(v) by {
                assert(vs@.to_set().contains(v));
                let q = choose|q: int| 0 <= q < vs@.len() && vs@[q] == v;
                assert(reached@.contains(vs@[q]));
            }
        } else {
            let q = choose|q: int| 0 <= q < n && !reached@.contains(#[trigger] vs@[q]);
            assert(vs@.to_set().contains(vs@[q]));
            assert(!ws.contains(vs@[q]));
        }
    }
    all && n > 0 && e.len() == n - 1
}

/// The classical Danos–Regnier test on a cut-free structure: every switching
/// graph is a tree.
pub fn dr_correct_classical(ps: &ProofStructure) -> (r: bool)
    requires
        forall|i: int| 0 <= i < ps.links@.len() ==> !(#[trigger] ps.links@[i] is Cut),
        pow2(par_count(ps.links@)) <= usize::MAX,
    ensures
        r == forall|m: nat| m < pow2(par_count(ps.links@)) ==> #[trigger] switching_graph_ok(
            ps.links@,
            switching_choices(m, par_count(ps.links@)),
        ),
{
    let sws = all_switchings(ps);
    let mut i: usize = 0;
    while i < sws.len()
        invariant
            i <= sws.len(),
            sws.len() == pow2(par_count(ps.links@)),
            forall|m: int| 0 <= m < sws.len() ==> (#[trigger] sws@[m]).par_choices@ == switching_choices(
                m as nat,
                par_count(ps.links@),
            ),
            forall|m: nat| m < i ==> #[trigger] switching_graph_ok(
                ps.links@,
                switching_choices(m, par_count(ps.links@)),
            ),
        decreases sws.len() - i,
    {
        let ok = switching_graph_correct(&ps.links, &sws[i].par_choices);
        if !ok {
            assert(sws@[i as int].par_choices@ == switching_choices(i as nat, par_count(ps.links@)));
            return false;
        }
        i += 1;
    }
    true
}


// ─────────────────────────────────────────────────────────────────────────
// Test constellations Φ^φ (§68.3)
// ─────────────────────────────────────────────────────────────────────────

/// The ray with its head made negative; a variable is left as it is.
pub open spec fn negative_head(t: TermV) -> TermV {
    match t {
        TermV::App(f, _, args) => TermV::App(f, Polarity::Neg, args),
        TermV::Var(x) => TermV::Var(x),
    }
}

/// The coloured address `@c(c(p))` of a vertex with path address `p` below
/// conclusion `c`.
pub open spec fn coloured_addr(c: VId, p: TermV) -> TermV {
    TermV::App(seq!['@'] + vname(c), Polarity::Neutral, seq![vray(c, Polarity::Neutral, p)])
}

/// The routing star of an axiom end `v` that is not a conclusion and has an
/// address: `[-addr(v), +v(X)]`, or with `col` the coloured
/// `[-@c(c(p)), +v(X)]`, whose head cannot meet a conclusion star.
pub open spec fn route_star(links: Seq<LinkKind>, v: VId, col: bool) -> Seq<Seq<TermV>> {
    if is_conclusion(links, v, true) {
        Seq::empty()
    } else {
        match path_addr_spec(links, v) {
            Some((c, p)) => seq![
                seq![
                    negative_head(if col {
                        coloured_addr(c, p)
                    } else {
                        vray(c, Polarity::Neutral, p)
                    }),
                    vray(v, Polarity::Pos, xv()),
                ],
            ],
            None => Seq::empty(),
        }
    }
}

/// Whether the switching keeps the left premise of the par at link `i`: the
/// choice of its rank among the pars, left when the switching has none.
pub open spec fn keeps_left(links: Seq<LinkKind>, ch: Seq<bool>, i: int) -> bool {
    let k = par_count(links.take(i));
    if k < ch.len() {
        ch[k as int]
    } else {
        true
    }
}

/// The test stars of link `i` (§68.3).
pub open spec fn switched_link_stars(links: Seq<LinkKind>, ch: Seq<bool>, i: int, col: bool) -> Seq<
    Seq<TermV>,
> {
    let x = xv();
    match links[i] {
        LinkKind::Ax { left, right } => route_star(links, left, col) + route_star(links, right, col),
        LinkKind::Par { left, right, output } => {
            let kept = if keeps_left(links, ch, i) {
                left
            } else {
                right
            };
            let cut_off = if keeps_left(links, ch, i) {
                right
            } else {
                left
            };
            seq![
                seq![vray(kept, Polarity::Neg, x), vray(output, Polarity::Pos, x)],
                seq![vray(cut_off, Polarity::Neg, x)],
            ]
        },
        LinkKind::Tensor { left, right, output } => seq![
            seq![vray(left, Polarity::Neg, x), vray(right, Polarity::Neg, x), vray(output, Polarity::Pos, x)],
        ],
        LinkKind::Cut { .. } => Seq::empty(),
    }
}

/// The test stars of the first `n` links, in order.
pub open spec fn switched_stars(links: Seq<LinkKind>, ch: Seq<bool>, n: nat, col: bool) -> Seq<
    Seq<TermV>,
>
    decreases n,
{
    if n == 0 {
        Seq::empty()
    } else {
        switched_stars(links, ch, (n - 1) as nat, col) + switched_link_stars(links, ch, n - 1, col)
    }
}

/// The conclusion stars `[-v(X), v(X)]`, one per listed conclusion.
pub open spec fn conclusion_stars(fc: Seq<VId>) -> Seq<Seq<TermV>> {
    Seq::new(
        fc.len(),
        |k: int| seq![vray(fc[k], Polarity::Neg, xv()), vray(fc[k], Polarity::Neutral, xv())],
    )
}

fn push_star_m(out: &mut Vec<Star>, s: Star)
    ensures
        cons_v(final(out)@) == cons_v(old(out)@).push(views_of(s@)),
{
    proof {
        lemma_cons_v_push(out@, s);
    }
    out.push(s);
}

fn route_star_exec(ps: &ProofStructure, v: VId, col: bool, out: &mut Vec<Star>)
    ensures
        cons_v(final(out)@) == cons_v(old(out)@) + route_star(ps.links@, v, col),
{
    let cs = conclusion_list(&ps.links, true);
    if vid_in(&cs, v) {
        assert(cons_v(out@) =~= cons_v(out@) + Seq::<Seq<TermV>>::empty());
        return;
    }
    match path_addr(ps, v) {
        Some((c, p)) => {
            let a = if col {
                proof {
                    reveal_strlit("@");
                    assert("@"@ =~= seq!['@']);
                }
                let name = String::from_str("@").concat(vertex_name(c).as_str());
                let args = vec![neu_vertex_ray(c, p)];
                proof {
                    lemma_views_of(args@);
                    assert(views_of(args@) =~= seq![args@[0]@]);
                }
                Term::App(Sym { name, pol: Polarity::Neg }, args)
            } else {
                vertex_ray(c, Polarity::Neg, p)
            };
            let b = pos_vertex_ray(v, var_x());
            let ghost before = cons_v(out@);
            let st = vec![a, b];
            proof {
                lemma_star2(st);
            }
            push_star_m(out, st);
            assert(cons_v(out@) =~= before + route_star(ps.links@, v, col));
        },
        None => {
            assert(cons_v(out@) =~= cons_v(out@) + Seq::<Seq<TermV>>::empty());
        },
    }
}

/// The test constellation `Φ^φ` of a switching (§68.3): `Φ^cut`; link by
/// link, a routing star `[-addr(v), +v(X)]` for each axiom end `v` that is
/// not a conclusion, the stars `[-kept(X), +v(X)]` and `[-other(X)]` of a
/// par (the `k`-th par keeps its left premise when choice `k` is true or
/// missing), the star `[-u(X), -w(X), +v(X)]` of a tensor; then a star
/// `[-v(X), v(X)]` per conclusion, in increasing order.
pub fn phi_switched(ps: &ProofStructure, phi: &Switching) -> (r: Constellation)
    ensures
        cons_v(r@) == phi_cut_spec(ps.links@) + switched_stars(ps.links@, phi.par_choices@, ps.links@.len(), false)
            + conclusion_stars(conclusions_seq(ps.links@)),
{
    switched_constellation(ps, phi, false)
}

/// `Φ^φ` with coloured routing stars: as [`phi_switched`], but the routing
/// star of an axiom end `v` below conclusion `c` with path address `p` is
/// `[-@c(c(p)), +v(X)]`, so that it meets the vehicle ray `+@c(c(p))` and no
/// conclusion star.
pub fn phi_switched_coloured(ps: &ProofStructure, phi: &Switching) -> (r: Constellation)
    ensures
        cons_v(r@) == phi_cut_spec(ps.links@) + switched_stars(ps.links@, phi.par_choices@, ps.links@.len(), true)
            + conclusion_stars(conclusions_seq(ps.links@)),
{
    switched_constellation(ps, phi, true)
}

fn switched_constellation(ps: &ProofStructure, phi: &Switching, col: bool) -> (r: Constellation)
    ensures
        cons_v(r@) == phi_cut_spec(ps.links@) + switched_stars(ps.links@, phi.par_choices@, ps.links@.len(), col)
            + conclusion_stars(conclusions_seq(ps.links@)),
{
    let links = &ps.links;
    let mut out = phi_cut(ps);
    let ghost cuts = cons_v(out@);
    let mut i: usize = 0;
    let mut par_idx: usize = 0;
    assert(cons_v(out@) =~= cuts + switched_stars(links@, phi.par_choices@, 0, col));
    while i < links.len()
        invariant
            i <= links.len(),
            links == &ps.links,
            par_idx == par_count(links@.take(i as int)),
            par_idx <= i,
            cons_v(out@) == cuts + switched_stars(links@, phi.par_choices@, i as nat, col),
        decreases links.len() - i,
    {
        let ghost before = cons_v(out@);
        proof {
            assert(links@.take(i + 1).drop_last() =~= links@.take(i as int));
        }
        match links[i] {
            LinkKind::Ax { left, right } => {
                route_star_exec(ps, left, col, &mut out);
                route_star_exec(ps, right, col, &mut out);
            },
            LinkKind::Par { left, right, output } => {
                let is_left = if par_idx < phi.par_choices.len() {
                    phi.par_choices[par_idx]
                } else {
                    true
                };
                par_idx += 1;
                let kept = if is_left { left } else { right };
                let cut_off = if is_left { right } else { left };
                let a = neg_vertex_ray(kept, var_x());
                let b = pos_vertex_ray(output, var_x());
                let st = vec![a, b];
                proof {
                    lemma_star2(st);
                }
                push_star_m(&mut out, st);
                let c = neg_vertex_ray(cut_off, var_x());
                let ghost cv = c@;
                let st2 = vec![c];
                proof {
                    lemma_views_of(st2@);
                    assert(views_of(st2@) =~= seq![cv]);
                }
                push_star_m(&mut out, st2);
            },
            LinkKind::Tensor { left, right, output } => {
                let a = neg_vertex_ray(left, var_x());
                let b = neg_vertex_ray(right, var_x());
                let c = pos_vertex_ray(output, var_x());
                let ghost (av, bv, cv) = (a@, b@, c@);
                let st = vec![a, b, c];
                proof {
                    lemma_views_of(st@);
                    assert(views_of(st@) =~= seq![av, bv, cv]);
                }
                push_star_m(&mut out, st);
            },
            LinkKind::Cut { .. } => {},
        }
        proof {
            assert(cons_v(out@) =~~= before + switched_link_stars(links@, phi.par_choices@, i as int, col));
        }
        i += 1;
    }
    let ghost body = cons_v(out@);
    let fc = conclusion_list(links, true);
    proof {
        lemma_conclusions_seq(links@, fc@);
    }
    let mut k: usize = 0;
    assert(cons_v(out@) =~= body + conclusion_stars(fc@.take(0)));
    while k < fc.len()
        invariant
            k <= fc.len(),
            cons_v(out@) == body + conclusion_stars(fc@.take(k as int)),
        decreases fc.len() - k,
    {
        let v = fc[k];
        let a = neg_vertex_ray(v, var_x());
        let b = neu_vertex_ray(v, var_x());
        let st = vec![a, b];
        proof {
            lemma_star2(st);
        }
        push_star_m(&mut out, st);
        k += 1;
        assert(cons_v(out@) =~= body + conclusion_stars(fc@.take(k as int)));
    }
    assert(fc@.take(fc.len() as int) =~= fc@);
    out
}

/// The conclusions, cuts counted, as the strictly increasing list of them.
pub open spec fn conclusions_seq(links: Seq<LinkKind>) -> Seq<VId> {
    choose|s: Seq<VId>| sorted_ids(s) && forall|v: VId| s.contains(v) <==> is_conclusion(links, v, true)
}

/// Two strictly increasing lists with the same elements are equal.
proof fn lemma_sorted_unique(a: Seq<VId>, b: Seq<VId>)
    requires
        sorted_ids(a),
        sorted_ids(b),
        forall|v: VId| a.contains(v) <==> b.contains(v),
    ensures
        a == b,
    decreases a.len(),
{
    if a.len() == 0 {
        if b.len() > 0 {
            assert(b.contains(b[0]));
        }
        assert(a =~= b);
    } else if b.len() == 0 {
        assert(a.contains(a[0]));
    } else {
        // The first elements are the least of the same set.
        assert(a.contains(b[0]));
        assert(b.contains(a[0]));
        let i = choose|i: int| 0 <= i < a.len() && a[i] == b[0];
        let j = choose|j: int| 0 <= j < b.len() && b[j] == a[0];
        if i > 0 {
            assert(a[0].0 < a[i].0);
            if j > 0 {
                assert(b[0].0 < b[j].0);
            }
        }
        if j > 0 {
            assert(b[0].0 < b[j].0);
        }
        assert(a[0] == b[0]);
        let a1 = a.drop_first();
        let b1 = b.drop_first();
        assert forall|v: VId| a1.contains(v) <==> b1.contains(v) by {
            if a1.contains(v) {
                let p = choose|p: int| 0 <= p < a1.len() && a1[p] == v;
                assert(a[p + 1] == v);
                assert(a[0].0 < v.0);
                assert(b.contains(v));
                let q = choose|q: int| 0 <= q < b.len() && b[q] == v;
                assert(q != 0);
                assert(b1[q - 1] == v);
            }
            if b1.contains(v) {
                let p = choose|p: int| 0 <= p < b1.len() && b1[p] == v;
                assert(b[p + 1] == v);
                assert(b[0].0 < v.0);
                assert(a.contains(v));
                let q = choose|q: int| 0 <= q < a.len() && a[q] == v;
                assert(q != 0);
                assert(a1[q - 1] == v);
            }
        }
        lemma_sorted_unique(a1, b1);
        assert(a =~= seq![a[0]] + a1);
        assert(b =~= seq![b[0]] + b1);
    }
}

proof fn lemma_conclusions_seq(links: Seq<LinkKind>, s: Seq<VId>)
    requires
        sorted_ids(s),
        forall|v: VId| s.contains(v) <==> is_conclusion(links, v, true),
    ensures
        conclusions_seq(links) == s,
{
    let c = conclusions_seq(links);
    assert(sorted_ids(c) && forall|v: VId| c.contains(v) <==> is_conclusion(links, v, true));
    lemma_sorted_unique(c, s);
}

// ─────────────────────────────────────────────────────────────────────────
// Structural equivalence (§67.7)
// ─────────────────────────────────────────────────────────────────────────

/// Models of a list of stars.
pub open spec fn stars_v(b: Seq<Star>) -> Seq<Seq<TermV>> {
    Seq::new(b.len(), |i: int| star_v(b[i]@))
}

/// The canonical renamings of a list of stars: two stars are α-equivalent
/// exactly when their canonical renamings are equal.
pub open spec fn canons(c: Seq<Seq<TermV>>) -> Seq<Seq<TermV>> {
    c.map_values(|st: Seq<TermV>| renamed_star(st, true))
}

/// `Φ ≃_S Φ'` in the model: the same stars up to renaming, counted with
/// their multiplicity.
pub open spec fn equiv_up_to_renaming(a: Seq<Seq<TermV>>, b: Seq<Seq<TermV>>) -> bool {
    canons(a).to_multiset() == canons(b).to_multiset()
}

/// The entries of `cb` at the listed positions.
pub open spec fn picked(cb: Seq<Seq<TermV>>, ix: Seq<usize>) -> Seq<Seq<TermV>> {
    ix.map_values(|q: usize| cb[q as int])
}

/// The first position among `idx` whose star of `b` is α-equivalent to `s`.
fn find_match(s: &Star, b: &[Star], idx: &Vec<usize>) -> (r: Option<usize>)
    requires
        forall|q: int| 0 <= q < idx.len() ==> idx@[q] < b@.len(),
    ensures
        match r {
            Some(p) => p < idx.len() && renamed_star(star_v(b@[idx@[p as int] as int]@), true) == renamed_star(
                star_v(s@),
                true,
            ),
            None => forall|q: int|
                0 <= q < idx.len() ==> renamed_star(star_v(b@[#[trigger] idx@[q] as int]@), true) != renamed_star(
                    star_v(s@),
                    true,
                ),
        },
{
    let mut p: usize = 0;
    while p < idx.len()
        invariant
            p <= idx.len(),
            forall|q: int| 0 <= q < idx.len() ==> idx@[q] < b@.len(),
            forall|q: int|
                0 <= q < p ==> renamed_star(star_v(b@[#[trigger] idx@[q] as int]@), true) != renamed_star(
                    star_v(s@),
                    true,
                ),
        decreases idx.len() - p,
    {
        if stars_alpha_equiv(s, &b[idx[p]]) {
            return Some(p);
        }
        p += 1;
    }
    None
}

/// `Φ ≃_S Φ'`: the stars of `a` and of `b` are the same up to renaming,
/// each counted as often as it occurs. Each star of `a` in turn takes the
/// first α-equivalent star of `b` not taken yet.
pub fn constellations_equiv(a: &[Star], b: &[Star]) -> (r: bool)
    ensures
        r == equiv_up_to_renaming(stars_v(a@), stars_v(b@)),
{
    broadcast use vstd::seq_lib::group_to_multiset_ensures, vstd::multiset::group_multiset_axioms;

    let ghost av = stars_v(a@);
    let ghost bv = stars_v(b@);
    let ghost ca = canons(av);
    let ghost cb = canons(bv);
    if a.len() != b.len() {
        proof {
            assert(ca.len() != cb.len());
            vstd::seq_lib::to_multiset_len(ca);
            vstd::seq_lib::to_multiset_len(cb);
        }
        return false;
    }
    let mut idx: Vec<usize> = Vec::new();
    let mut k: usize = 0;
    while k < b.len()
        invariant
            k <= b.len(),
            idx@ == Seq::new(k as nat, |q: int| q as usize),
        decreases b.len() - k,
    {
        idx.push(k);
        k += 1;
        assert(idx@ =~= Seq::new(k as nat, |q: int| q as usize));
    }
    assert(picked(cb, idx@) =~= cb);
    let mut i: usize = 0;
    while i < a.len()
        invariant
            i <= a.len(),
            av == stars_v(a@),
            bv == stars_v(b@),
            ca == canons(av),
            cb == canons(bv),
            forall|q: int| 0 <= q < idx.len() ==> idx@[q] < b@.len(),
            ca.take(i as int).to_multiset().add(picked(cb, idx@).to_multiset()) == cb.to_multiset(),
        decreases a.len() - i,
    {
        let f = find_match(&a[i], b, &idx);
        match f {
            None => {
                proof {
                    let x = ca[i as int];
                    assert(x == renamed_star(star_v(a@[i as int]@), true));
                    assert(!picked(cb, idx@).contains(x)) by {
                        if picked(cb, idx@).contains(x) {
                            let q = choose|q: int| 0 <= q < picked(cb, idx@).len() && #[trigger] picked(cb, idx@)[q] == x;
                            assert(cb[idx@[q] as int] == renamed_star(star_v(b@[idx@[q] as int]@), true));
                        }
                    }
                    let ta = ca.take(i as int);
                    let tb = ca.take(i + 1);
                    let r0 = picked(cb, idx@);
                    assert(ca =~= tb + ca.skip(i + 1));
                    vstd::seq_lib::lemma_multiset_commutative(tb, ca.skip(i + 1));
                    assert(ca.to_multiset() == tb.to_multiset().add(ca.skip(i + 1).to_multiset()));
                    assert(ca.to_multiset().count(x) == tb.to_multiset().count(x) + ca.skip(i + 1).to_multiset().count(x));
                    assert(tb =~= ta.push(x));
                    vstd::seq_lib::to_multiset_build(ta, x);
                    assert(tb.to_multiset() == ta.to_multiset().insert(x));
                    assert(tb.to_multiset().count(x) == ta.to_multiset().count(x) + 1);
                    vstd::seq_lib::to_multiset_contains(r0, x);
                    assert(r0.to_multiset().count(x) == 0);
                    assert(cb.to_multiset().count(x) == ta.to_multiset().count(x) + r0.to_multiset().count(x));
                    assert(ca.to_multiset().count(x) != cb.to_multiset().count(x));
                }
                return false;
            },
            Some(p) => {
                proof {
                    let x = ca[i as int];
                    let r0 = picked(cb, idx@);
                    assert(r0[p as int] == cb[idx@[p as int] as int]);
                    assert(cb[idx@[p as int] as int] == renamed_star(star_v(b@[idx@[p as int] as int]@), true));
                    assert(r0[p as int] == x);
                    assert(picked(cb, idx@.remove(p as int)) =~= r0.remove(p as int));
                    assert(ca.take(i + 1) =~= ca.take(i as int).push(x));
                    let ta = ca.take(i as int);
                    vstd::seq_lib::to_multiset_build(ta, x);
                    vstd::seq_lib::to_multiset_remove(r0, p as int);
                    vstd::seq_lib::to_multiset_contains(r0, x);
                    assert(r0.contains(x));
                    assert(r0.to_multiset().count(x) > 0);
                    assert(ta.push(x).to_multiset() == ta.to_multiset().insert(x));
                    assert(r0.remove(p as int).to_multiset() == r0.to_multiset().remove(x));
                    assert(ca.take(i + 1).to_multiset().add(r0.remove(p as int).to_multiset()) =~= ca.take(
                        i as int,
                    ).to_multiset().add(r0.to_multiset()));
                }
                idx.remove(p);
                i += 1;
            },
        }
    }
    proof {
        assert(ca.take(i as int) =~= ca);
        assert(picked(cb, idx@).len() == idx.len());
        if idx.len() > 0 {
            assert(cb.to_multiset().len() == ca.to_multiset().len() + picked(cb, idx@).to_multiset().len());
        } else {
            assert(picked(cb, idx@) =~= Seq::<Seq<TermV>>::empty());
            assert(ca.to_multiset().add(picked(cb, idx@).to_multiset()) =~= ca.to_multiset());
        }
    }
    idx.len() == 0
}

// ─────────────────────────────────────────────────────────────────────────
// Well-formed vehicles (§69.27)
// ─────────────────────────────────────────────────────────────────────────

/// An address term `t ::= X | 1 · t | r · X`.
pub open spec fn valid_address(t: TermV) -> bool
    decreases t,
{
    match t {
        TermV::Var(_) => true,
        TermV::App(f, _, args) => f == seq!['·'] && args.len() == 2 && match args[0] {
            TermV::App(g, _, gargs) => gargs.len() == 0 && ((g == seq!['1'] && valid_address(args[1])) || (
            g == seq!['r'] && args[1] is Var)),
            TermV::Var(_) => false,
        },
    }
}

/// All rays of a constellation, star by star.
pub open spec fn all_rays(c: Seq<Seq<TermV>>) -> Seq<TermV>
    decreases c.len(),
{
    if c.len() == 0 {
        Seq::empty()
    } else {
        all_rays(c.drop_last()) + c.last()
    }
}

/// A ray shaped as a vehicle ray: a variable, or a non-negative head with one
/// argument that is an address term.
pub open spec fn vehicle_ray(t: TermV) -> bool {
    match t {
        TermV::Var(_) => true,
        TermV::App(_, p, args) => p != Polarity::Neg && args.len() == 1 && valid_address(args[0]),
    }
}

pub open spec fn positive_ray(t: TermV) -> bool {
    t matches TermV::App(_, p, _) && p == Polarity::Pos
}

/// §69.27: binary stars, no negative head, some positive head, address-term
/// arguments, and no two rays α-unifiable.
pub open spec fn well_formed_vehicle(c: Seq<Seq<TermV>>) -> bool {
    let rs = all_rays(c);
    &&& forall|i: int| 0 <= i < c.len() ==> (#[trigger] c[i]).len() == 2
    &&& forall|k: int| 0 <= k < rs.len() ==> vehicle_ray(#[trigger] rs[k])
    &&& exists|k: int| 0 <= k < rs.len() && positive_ray(#[trigger] rs[k])
    &&& forall|p: int, q: int| 0 <= p < q < rs.len() ==> !alpha_unifiable(#[trigger] rs[p], #[trigger] rs[q])
}

fn is_address(t: &Term) -> (r: bool)
    ensures
        r == valid_address(t@),
    decreases t,
{
    proof {
        reveal_strlit("·");
        reveal_strlit("1");
        reveal_strlit("r");
    }
    match t {
        Term::Var(_) => true,
        Term::App(f, args) => {
            proof {
                lemma_views_of(args@);
            }
            if !(f.name.eq(&String::from_str("·"))) || args.len() != 2 {
                proof {
                    assert("·"@ =~= seq!['·']);
                }
                return false;
            }
            proof {
                assert("·"@ =~= seq!['·']);
                assert(decreases_to!(args => args[1]));
            }
            match &args[0] {
                Term::App(g, gargs) => {
                    proof {
                        lemma_views_of(gargs@);
                        assert("1"@ =~= seq!['1']);
                        assert("r"@ =~= seq!['r']);
                    }
                    if gargs.len() != 0 {
                        return false;
                    }
                    if g.name.eq(&String::from_str("1")) {
                        is_address(&args[1])
                    } else if g.name.eq(&String::from_str("r")) {
                        match &args[1] {
                            Term::Var(_) => true,
                            _ => false,
                        }
                    } else {
                        false
                    }
                },
                Term::Var(_) => false,
            }
        },
    }
}

fn flatten_rays(phi: &Constellation) -> (r: Vec<Term>)
    ensures
        views_of(r@) == all_rays(cons_v(phi@)),
{
    let ghost c = cons_v(phi@);
    let mut out: Vec<Term> = Vec::new();
    let mut i: usize = 0;
    while i < phi.len()
        invariant
            i <= phi.len(),
            c == cons_v(phi@),
            views_of(out@) == all_rays(c.take(i as int)),
        decreases phi.len() - i,
    {
        let s = &phi[i];
        proof {
            lemma_views_of(s@);
            assert(c.take(i + 1).drop_last() =~= c.take(i as int));
        }
        let ghost base = views_of(out@);
        let mut j: usize = 0;
        while j < s.len()
            invariant
                j <= s.len(),
                views_of(s@).len() == s.len(),
                forall|k: int| 0 <= k < s.len() ==> #[trigger] views_of(s@)[k] == s@[k]@,
                views_of(out@) == base + views_of(s@).take(j as int),
            decreases s.len() - j,
        {
            let t = s[j].clone();
            let ghost before = out@;
            out.push(t);
            proof {
                assert(out@.drop_last() =~= before);
                assert(views_of(s@).take(j + 1) =~= views_of(s@).take(j as int).push(s@[j as int]@));
            }
            j += 1;
            assert(views_of(out@) =~= base + views_of(s@).take(j as int));
        }
        assert(views_of(s@).take(s.len() as int) =~= views_of(s@));
        i += 1;
    }
    assert(c.take(phi.len() as int) =~= c);
    out
}

/// Whether a constellation is a well-formed vehicle (§69.27).
pub fn is_well_formed_vehicle(phi: &Constellation) -> (r: bool)
    ensures
        r == well_formed_vehicle(cons_v(phi@)),
{
    let ghost c = cons_v(phi@);
    let mut i: usize = 0;
    while i < phi.len()
        invariant
            i <= phi.len(),
            c == cons_v(phi@),
            forall|k: int| 0 <= k < i ==> (#[trigger] c[k]).len() == 2,
        decreases phi.len() - i,
    {
        proof {
            lemma_views_of(phi@[i as int]@);
        }
        if phi[i].len() != 2 {
            assert(c[i as int].len() != 2);
            return false;
        }
        i += 1;
    }
    let rays = flatten_rays(phi);
    let ghost rs = all_rays(c);
    proof {
        lemma_views_of(rays@);
    }
    let mut has_pos = false;
    let mut k: usize = 0;
    while k < rays.len()
        invariant
            k <= rays.len(),
            c == cons_v(phi@),
            rs == all_rays(c),
            views_of(rays@) == rs,
            rs.len() == rays.len(),
            forall|q: int| 0 <= q < rays.len() ==> #[trigger] rs[q] == rays@[q]@,
            forall|q: int| 0 <= q < k ==> vehicle_ray(#[trigger] rs[q]),
            has_pos == exists|q: int| 0 <= q < k && positive_ray(#[trigger] rs[q]),
        decreases rays.len() - k,
    {
        let ok = match &rays[k] {
            Term::Var(_) => true,
            Term::App(f, args) => {
                proof {
                    lemma_views_of(args@);
                }
                f.pol != Polarity::Neg && args.len() == 1 && is_address(&args[0])
            },
        };
        if !ok {
            assert(!vehicle_ray(rs[k as int]));
            assert(!well_formed_vehicle(c));
            return false;
        }
        let pos = match &rays[k] {
            Term::App(f, _) => f.pol == Polarity::Pos,
            Term::Var(_) => false,
        };
        assert(pos == positive_ray(rs[k as int]));
        has_pos = has_pos || pos;
        k += 1;
    }
    if !has_pos {
        assert(!well_formed_vehicle(c));
        return false;
    }
    let n = rays.len();
    let mut p: usize = 0;
    while p < n
        invariant
            p <= n,
            n == rays.len(),
            rs.len() == n,
            c == cons_v(phi@),
            rs == all_rays(c),
            forall|q: int| 0 <= q < n ==> #[trigger] rs[q] == rays@[q]@,
            forall|x: int, y: int| 0 <= x < p && x < y < n ==> !alpha_unifiable(#[trigger] rs[x], #[trigger] rs[y]),
        decreases n - p,
    {
        let mut q: usize = p + 1;
        while q < n
            invariant
                p < n,
                p + 1 <= q <= n,
                n == rays.len(),
                rs.len() == n,
                c == cons_v(phi@),
                rs == all_rays(c),
                forall|z: int| 0 <= z < n ==> #[trigger] rs[z] == rays@[z]@,
                forall|y: int| p < y < q ==> !alpha_unifiable(rs[p as int], #[trigger] rs[y]),
            decreases n - q,
        {
            let u = alpha_unify(rays[p].clone(), rays[q].clone());
            if u.is_some() {
                assert(alpha_unifiable(rs[p as int], rs[q as int]));
                assert(!well_formed_vehicle(cons_v(phi@)));
                return false;
            }
            q += 1;
        }
        p += 1;
    }
    true
}

// ─────────────────────────────────────────────────────────────────────────
// The cut-reduction trajectory (§67)
// ─────────────────────────────────────────────────────────────────────────

/// The rule that produced a state of the trajectory.
#[derive(Debug, Clone, Copy, PartialEq, Eq, Structural)]
pub enum CutRule {
    /// The input structure.
    Initial,
    /// An axiom one of whose ends is cut is spliced out.
    AxCut,
    /// A cut between a tensor and a par becomes two cuts between their premises.
    MultiplicativeCut,
}

/// One state `Rᵢ` of the trajectory.
#[derive(Debug)]
pub struct ReductionStep {
    pub index: usize,
    pub rule: CutRule,
    pub ps: ProofStructure,
    pub phi_comp: Constellation,
    pub state: Term,
    pub cuts_remaining: usize,
}

/// The result of checking a cut elimination against a normal form.
pub struct CutElimResult {
    pub normal_form: Vec<Star>,
    pub expected: Constellation,
    pub theorem_holds: bool,
}

/// The link with vertex `from` renamed `to`.
pub open spec fn rename_link(l: LinkKind, from: VId, to: VId) -> LinkKind {
    let s = |v: VId| if v == from {
        to
    } else {
        v
    };
    match l {
        LinkKind::Ax { left, right } => LinkKind::Ax { left: s(left), right: s(right) },
        LinkKind::Cut { left, right } => LinkKind::Cut { left: s(left), right: s(right) },
        LinkKind::Tensor { left, right, output } => LinkKind::Tensor {
            left: s(left),
            right: s(right),
            output: s(output),
        },
        LinkKind::Par { left, right, output } => LinkKind::Par {
            left: s(left),
            right: s(right),
            output: s(output),
        },
    }
}

/// The first `n` links but those at the skipped positions, renamed.
pub open spec fn rebuild(links: Seq<LinkKind>, skip: Set<int>, from: VId, to: VId, n: int) -> Seq<LinkKind>
    decreases n,
{
    if n <= 0 {
        Seq::empty()
    } else {
        let rest = rebuild(links, skip, from, to, n - 1);
        if skip.contains(n - 1) {
            rest
        } else {
            rest.push(rename_link(links[n - 1], from, to))
        }
    }
}

/// The first axiom (in link order) with an end `v`, and its other end.
pub open spec fn ax_at(l: LinkKind, v: VId) -> Option<VId> {
    match l {
        LinkKind::Ax { left, right } => if left == v {
            Some(right)
        } else if right == v {
            Some(left)
        } else {
            None
        },
        _ => None,
    }
}

pub open spec fn first_ax(links: Seq<LinkKind>, v: VId, i: int) -> bool {
    &&& 0 <= i < links.len()
    &&& ax_at(links[i], v) is Some
    &&& forall|k: int| 0 <= k < i ==> ax_at(#[trigger] links[k], v) is None
}

/// The first tensor or par (in link order) whose conclusion is `v`.
pub open spec fn first_conn(links: Seq<LinkKind>, v: VId, i: int) -> bool {
    &&& 0 <= i < links.len()
    &&& conn_premises(links[i], v) is Some
    &&& forall|k: int| 0 <= k < i ==> conn_premises(#[trigger] links[k], v) is None
}

/// The reduction of the cut at position `ci`, if it has one: an axiom at one
/// end (the left end looked at first) is spliced out and the other end renamed
/// to the axiom's other end; else a tensor against a par becomes two cuts.
pub open spec fn reduce_at(links: Seq<LinkKind>, ci: int) -> Option<(Seq<LinkKind>, CutRule)> {
    match links[ci] {
        LinkKind::Cut { left: cl, right: cr } => {
            if exists|i: int| first_ax(links, cl, i) {
                let i = choose|i: int| first_ax(links, cl, i);
                Some((rebuild(links, set![i, ci], cr, ax_at(links[i], cl).unwrap(), links.len() as int), CutRule::AxCut))
            } else if exists|i: int| first_ax(links, cr, i) {
                let i = choose|i: int| first_ax(links, cr, i);
                Some((rebuild(links, set![i, ci], cl, ax_at(links[i], cr).unwrap(), links.len() as int), CutRule::AxCut))
            } else if (exists|i: int| first_conn(links, cl, i)) && (exists|i: int| first_conn(links, cr, i)) {
                let a = choose|i: int| first_conn(links, cl, i);
                let b = choose|i: int| first_conn(links, cr, i);
                let (ti, pi) = if links[a] is Tensor && links[b] is Par {
                    (a, b)
                } else {
                    (b, a)
                };
                if links[ti] is Tensor && links[pi] is Par {
                    let (tl, tr) = conn_premises(links[ti], if ti == a { cl } else { cr }).unwrap();
                    let (pl, pr) = conn_premises(links[pi], if pi == a { cl } else { cr }).unwrap();
                    Some((
                        rebuild(links, set![ci, ti, pi], cl, cl, links.len() as int).push(
                            LinkKind::Cut { left: tl, right: pl },
                        ).push(LinkKind::Cut { left: tr, right: pr }),
                        CutRule::MultiplicativeCut,
                    ))
                } else {
                    None
                }
            } else {
                None
            }
        },
        _ => None,
    }
}

/// The first reducible cut from position `i` on, reduced.
pub open spec fn reduce_from(links: Seq<LinkKind>, i: int) -> Option<(Seq<LinkKind>, CutRule)>
    decreases links.len() - i,
{
    if i < 0 || i >= links.len() {
        None
    } else if reduce_at(links, i) is Some {
        reduce_at(links, i)
    } else {
        reduce_from(links, i + 1)
    }
}

/// Number of cut links.
pub open spec fn cut_count(links: Seq<LinkKind>) -> nat
    decreases links.len(),
{
    if links.len() == 0 {
        0
    } else {
        cut_count(links.drop_last()) + if links.last() is Cut {
            1nat
        } else {
            0nat
        }
    }
}

/// The states from the one reached by `rule` at step `idx` on: the structure
/// is recorded; the trajectory stops when it is cut-free, when `bound` steps
/// were taken, or when no cut can be reduced.
pub open spec fn trajectory(links: Seq<LinkKind>, rule: CutRule, idx: nat, bound: nat) -> Seq<
    (Seq<LinkKind>, CutRule),
>
    decreases bound - idx,
{
    let here = seq![(links, rule)];
    if cut_count(links) == 0 || idx >= bound {
        here
    } else {
        match reduce_from(links, 0) {
            Some((next, r)) => here + trajectory(next, r, idx + 1, bound),
            None => here,
        }
    }
}

fn rename_link_exec(l: LinkKind, from: VId, to: VId) -> (r: LinkKind)
    ensures
        r == rename_link(l, from, to),
{
    let s = |v: VId| -> (w: VId)
        ensures
            w == (if v == from {
                to
            } else {
                v
            }),
        {
            if v == from {
                to
            } else {
                v
            }
        };
    match l {
        LinkKind::Ax { left, right } => LinkKind::Ax { left: s(left), right: s(right) },
        LinkKind::Cut { left, right } => LinkKind::Cut { left: s(left), right: s(right) },
        LinkKind::Tensor { left, right, output } => LinkKind::Tensor {
            left: s(left),
            right: s(right),
            output: s(output),
        },
        LinkKind::Par { left, right, output } => LinkKind::Par {
            left: s(left),
            right: s(right),
            output: s(output),
        },
    }
}

fn rebuild_exec(links: &Vec<LinkKind>, s1: usize, s2: usize, s3: usize, from: VId, to: VId) -> (r: Vec<LinkKind>)
    ensures
        r@ == rebuild(links@, set![s1 as int, s2 as int, s3 as int], from, to, links.len() as int),
{
    let ghost skip = set![s1 as int, s2 as int, s3 as int];
    let mut out: Vec<LinkKind> = Vec::new();
    let mut j: usize = 0;
    while j < links.len()
        invariant
            j <= links.len(),
            skip == set![s1 as int, s2 as int, s3 as int],
            out@ == rebuild(links@, skip, from, to, j as int),
        decreases links.len() - j,
    {
        if j != s1 && j != s2 && j != s3 {
            out.push(rename_link_exec(links[j], from, to));
        }
        j += 1;
    }
    out
}

fn find_ax(links: &Vec<LinkKind>, v: VId) -> (r: Option<(usize, VId)>)
    ensures
        match r {
            Some((i, a)) => first_ax(links@, v, i as int) && ax_at(links@[i as int], v) == Some(a),
            None => forall|i: int| !first_ax(links@, v, i),
        },
{
    let mut i: usize = 0;
    while i < links.len()
        invariant
            i <= links.len(),
            forall|k: int| 0 <= k < i ==> ax_at(#[trigger] links@[k], v) is None,
        decreases links.len() - i,
    {
        match links[i] {
            LinkKind::Ax { left, right } => {
                if left == v {
                    return Some((i, right));
                }
                if right == v {
                    return Some((i, left));
                }
            },
            _ => {},
        }
        i += 1;
    }
    proof {
        assert forall|k: int| !first_ax(links@, v, k) by {
            if first_ax(links@, v, k) {
                assert(ax_at(links@[k], v) is None);
            }
        }
    }
    None
}

fn find_conn(links: &Vec<LinkKind>, v: VId) -> (r: Option<usize>)
    ensures
        match r {
            Some(i) => first_conn(links@, v, i as int),
            None => forall|i: int| !first_conn(links@, v, i),
        },
{
    let mut i: usize = 0;
    while i < links.len()
        invariant
            i <= links.len(),
            forall|k: int| 0 <= k < i ==> conn_premises(#[trigger] links@[k], v) is None,
        decreases links.len() - i,
    {
        if premises_of(links[i], v).is_some() {
            return Some(i);
        }
        i += 1;
    }
    proof {
        assert forall|k: int| !first_conn(links@, v, k) by {
            if first_conn(links@, v, k) {
                assert(conn_premises(links@[k], v) is None);
            }
        }
    }
    None
}

proof fn lemma_first_ax_unique(links: Seq<LinkKind>, v: VId, i: int, j: int)
    requires
        first_ax(links, v, i),
        first_ax(links, v, j),
    ensures
        i == j,
{
    if i < j {
        assert(ax_at(links[i], v) is None);
    }
    if j < i {
        assert(ax_at(links[j], v) is None);
    }
}

proof fn lemma_first_conn_unique(links: Seq<LinkKind>, v: VId, i: int, j: int)
    requires
        first_conn(links, v, i),
        first_conn(links, v, j),
    ensures
        i == j,
{
    if i < j {
        assert(conn_premises(links[i], v) is None);
    }
    if j < i {
        assert(conn_premises(links[j], v) is None);
    }
}

fn reduce_cut_at(links: &Vec<LinkKind>, ci: usize) -> (r: Option<(Vec<LinkKind>, CutRule)>)
    requires
        ci < links.len(),
    ensures
        match r {
            Some((nl, rule)) => reduce_at(links@, ci as int) == Some((nl@, rule)),
            None => reduce_at(links@, ci as int) is None,
        },
{
    match links[ci] {
        LinkKind::Cut { left: cl, right: cr } => {
            match find_ax(links, cl) {
                Some((ax_i, a)) => {
                    proof {
                        let i = choose|i: int| first_ax(links@, cl, i);
                        lemma_first_ax_unique(links@, cl, i, ax_i as int);
                    }
                    let nl = rebuild_exec(links, ax_i, ci, ci, cr, a);
                    assert(set![ax_i as int, ci as int, ci as int] =~= set![ax_i as int, ci as int]);
                    return Some((nl, CutRule::AxCut));
                },
                None => {},
            }
            match find_ax(links, cr) {
                Some((ax_i, a)) => {
                    proof {
                        let i = choose|i: int| first_ax(links@, cr, i);
                        lemma_first_ax_unique(links@, cr, i, ax_i as int);
                    }
                    let nl = rebuild_exec(links, ax_i, ci, ci, cl, a);
                    assert(set![ax_i as int, ci as int, ci as int] =~= set![ax_i as int, ci as int]);
                    return Some((nl, CutRule::AxCut));
                },
                None => {},
            }
            let fa = find_conn(links, cl);
            let fb = find_conn(links, cr);
            match (fa, fb) {
                (Some(a), Some(b)) => {
                    proof {
                        let a2 = choose|i: int| first_conn(links@, cl, i);
                        lemma_first_conn_unique(links@, cl, a2, a as int);
                        let b2 = choose|i: int| first_conn(links@, cr, i);
                        lemma_first_conn_unique(links@, cr, b2, b as int);
                    }
                    let a_ten = match links[a] {
                        LinkKind::Tensor { .. } => true,
                        _ => false,
                    };
                    let b_par = match links[b] {
                        LinkKind::Par { .. } => true,
                        _ => false,
                    };
                    let (ti, pi, tv, pv) = if a_ten && b_par {
                        (a, b, cl, cr)
                    } else {
                        (b, a, cr, cl)
                    };
                    match (links[ti], links[pi]) {
                        (
                            LinkKind::Tensor { left: tl, right: tr, output: _ },
                            LinkKind::Par { left: pl, right: pr, output: _ },
                        ) => {
                            let mut nl = rebuild_exec(links, ci, ti, pi, cl, cl);
                            nl.push(LinkKind::Cut { left: tl, right: pl });
                            nl.push(LinkKind::Cut { left: tr, right: pr });
                            Some((nl, CutRule::MultiplicativeCut))
                        },
                        _ => None,
                    }
                },
                _ => None,
            }
        },
        _ => None,
    }
}

fn reduce_one_cut(links: &Vec<LinkKind>) -> (r: Option<(Vec<LinkKind>, CutRule)>)
    ensures
        match r {
            Some((nl, rule)) => reduce_from(links@, 0) == Some((nl@, rule)),
            None => reduce_from(links@, 0) is None,
        },
{
    let mut i: usize = 0;
    while i < links.len()
        invariant
            i <= links.len(),
            reduce_from(links@, 0) == reduce_from(links@, i as int),
        decreases links.len() - i,
    {
        match reduce_cut_at(links, i) {
            Some(x) => {
                return Some(x);
            },
            None => {},
        }
        i += 1;
    }
    None
}

fn count_cuts(links: &Vec<LinkKind>) -> (k: usize)
    ensures
        k == cut_count(links@),
{
    let mut k: usize = 0;
    let mut i: usize = 0;
    while i < links.len()
        invariant
            i <= links.len(),
            k == cut_count(links@.take(i as int)),
            k <= i,
        decreases links.len() - i,
    {
        assert(links@.take(i + 1).drop_last() =~= links@.take(i as int));
        match links[i] {
            LinkKind::Cut { .. } => {
                k += 1;
            },
            _ => {},
        }
        i += 1;
    }
    assert(links@.take(links.len() as int) =~= links@);
    k
}

/// The term `state(star(r…), …)` of a constellation, its variables renamed
/// canonically in order of first occurrence.
pub open spec fn state_term(c: Seq<Seq<TermV>>) -> TermV {
    crate::constellation::renamed_star(
        seq![TermV::App(
            seq!['s', 't', 'a', 't', 'e'],
            Polarity::Neutral,
            Seq::new(c.len(), |i: int| TermV::App(seq!['s', 't', 'a', 'r'], Polarity::Neutral, c[i])),
        )],
        true,
    )[0]
}

fn reify(phi: &Constellation) -> (r: Term)
    ensures
        r@ == state_term(cons_v(phi@)),
{
    proof {
        reveal_strlit("star");
        reveal_strlit("state");
        assert("star"@ =~= seq!['s', 't', 'a', 'r']);
        assert("state"@ =~= seq!['s', 't', 'a', 't', 'e']);
    }
    let mut stars: Vec<Term> = Vec::new();
    let mut i: usize = 0;
    while i < phi.len()
        invariant
            i <= phi.len(),
            stars.len() == i,
            forall|k: int| 0 <= k < i ==> (#[trigger] stars@[k])@ == TermV::App(
                seq!['s', 't', 'a', 'r'],
                Polarity::Neutral,
                cons_v(phi@)[k],
            ),
        decreases phi.len() - i,
    {
        proof {
            reveal_strlit("star");
            assert("star"@ =~= seq!['s', 't', 'a', 'r']);
        }
        let rays = crate::constellation::copy_star(&phi[i]);
        stars.push(Term::App(Sym { name: String::from_str("star"), pol: Polarity::Neutral }, rays));
        i += 1;
    }
    proof {
        lemma_views_of(stars@);
        assert(views_of(stars@) =~= Seq::new(
            phi@.len(),
            |i: int| TermV::App(seq!['s', 't', 'a', 'r'], Polarity::Neutral, cons_v(phi@)[i]),
        ));
    }
    let whole = Term::App(Sym { name: String::from_str("state"), pol: Polarity::Neutral }, stars);
    let one = vec![whole];
    proof {
        lemma_views_of(one@);
        assert(views_of(one@) =~= seq![one@[0]@]);
    }
    let canon = crate::constellation::rename_star(&one, true);
    proof {
        lemma_views_of(canon@);
    }
    let mut canon = canon;
    canon.pop().unwrap()
}

/// The states `R₀ ~~> R₁ ~~> … ~~> Rₙ` of cut elimination: `R₀` is the
/// input; each next state reduces the first reducible cut; the trajectory
/// stops at a cut-free state, after `bound` steps, or when no cut reduces.
#[verifier::spinoff_prover]
#[verifier::rlimit(50)]
pub fn cut_elim_trace(ps: &ProofStructure, bound: usize) -> (r: Vec<ReductionStep>)
    ensures
        r.len() == trajectory(ps.links@, CutRule::Initial, 0, bound as nat).len(),
        forall|k: int|
            0 <= k < r.len() ==> {
                let (links, rule) = trajectory(ps.links@, CutRule::Initial, 0, bound as nat)[k];
                &&& (#[trigger] r@[k]).index == k
                &&& r@[k].rule == rule
                &&& r@[k].ps.links@ == links
                &&& cons_v(r@[k].phi_comp@) == phi_ax_from(links, links) + phi_cut_spec(links)
                &&& r@[k].state@ == state_term(phi_ax_from(links, links) + phi_cut_spec(links))
                &&& r@[k].cuts_remaining == cut_count(links)
            },
        r.len() >= 1,
        r.len() <= bound + 1,
        r@[0].rule == CutRule::Initial && r@[0].ps.links@ == ps.links@,
        forall|k: int|
            0 < k < r.len() ==> {
                ||| (#[trigger] r@[k]).rule == CutRule::AxCut && r@[k].cuts_remaining + 1 == r@[k - 1].cuts_remaining
                ||| r@[k].rule == CutRule::MultiplicativeCut && r@[k].cuts_remaining == r@[k - 1].cuts_remaining + 1
            },
        forall|k: int| 0 <= k < r.len() - 1 ==> (#[trigger] r@[k]).cuts_remaining > 0,
{
    let r = trajectory_steps(ps, bound);
    proof {
        let t = trajectory(ps.links@, CutRule::Initial, 0, bound as nat);
        lemma_trajectory_shape(ps.links@, CutRule::Initial, 0, bound as nat);
        lemma_trajectory_cut_steps(ps.links@, CutRule::Initial, 0, bound as nat);
        assert(r@[0].rule == t[0].1);
        assert forall|k: int| 0 < k < r.len() implies {
            ||| (#[trigger] r@[k]).rule == CutRule::AxCut && r@[k].cuts_remaining + 1 == r@[k - 1].cuts_remaining
            ||| r@[k].rule == CutRule::MultiplicativeCut && r@[k].cuts_remaining == r@[k - 1].cuts_remaining + 1
        } by {
            assert(r@[k - 1].cuts_remaining == cut_count(t[k - 1].0));
        }
        assert forall|k: int| 0 <= k < r.len() - 1 implies (#[trigger] r@[k]).cuts_remaining > 0 by {
            assert(r@[k].cuts_remaining == cut_count(t[k].0));
        }
    }
    r
}

fn trajectory_steps(ps: &ProofStructure, bound: usize) -> (r: Vec<ReductionStep>)
    ensures
        r.len() == trajectory(ps.links@, CutRule::Initial, 0, bound as nat).len(),
        forall|k: int|
            0 <= k < r.len() ==> {
                let (links, rule) = trajectory(ps.links@, CutRule::Initial, 0, bound as nat)[k];
                &&& (#[trigger] r@[k]).index == k
                &&& r@[k].rule == rule
                &&& r@[k].ps.links@ == links
                &&& cons_v(r@[k].phi_comp@) == phi_ax_from(links, links) + phi_cut_spec(links)
                &&& r@[k].state@ == state_term(phi_ax_from(links, links) + phi_cut_spec(links))
                &&& r@[k].cuts_remaining == cut_count(links)
            },
{
    let ghost whole = trajectory(ps.links@, CutRule::Initial, 0, bound as nat);
    let mut steps: Vec<ReductionStep> = Vec::new();
    let mut cur = ps.clone();
    let mut idx: usize = 0;
    let mut rule = CutRule::Initial;
    loop
        invariant_except_break
            steps.len() == idx,
            whole == steps@.map_values(|s: ReductionStep| (s.ps.links@, s.rule)) + trajectory(cur.links@, rule, idx as nat, bound as nat),
        invariant
            idx <= bound,
            whole == trajectory(ps.links@, CutRule::Initial, 0, bound as nat),
            forall|k: int|
                0 <= k < steps.len() ==> {
                    let links = (#[trigger] steps@[k]).ps.links@;
                    &&& steps@[k].index == k
                    &&& cons_v(steps@[k].phi_comp@) == phi_ax_from(links, links) + phi_cut_spec(links)
                    &&& steps@[k].state@ == state_term(phi_ax_from(links, links) + phi_cut_spec(links))
                    &&& steps@[k].cuts_remaining == cut_count(links)
                },
        ensures
            steps.len() == whole.len(),
            forall|k: int| 0 <= k < steps.len() ==> whole[k] == ((#[trigger] steps@[k]).ps.links@, steps@[k].rule),
            forall|k: int|
                0 <= k < steps.len() ==> {
                    let links = (#[trigger] steps@[k]).ps.links@;
                    &&& steps@[k].index == k
                    &&& cons_v(steps@[k].phi_comp@) == phi_ax_from(links, links) + phi_cut_spec(links)
                    &&& steps@[k].state@ == state_term(phi_ax_from(links, links) + phi_cut_spec(links))
                    &&& steps@[k].cuts_remaining == cut_count(links)
                },
        decreases bound - idx,
    {
        let pc = phi_comp(&cur);
        let state = reify(&pc);
        let cuts_remaining = count_cuts(&cur.links);
        let snapshot = cur.clone();
        let ghost before = steps@;
        let ghost here = trajectory(cur.links@, rule, idx as nat, bound as nat);
        steps.push(ReductionStep { index: idx, rule, ps: snapshot, phi_comp: pc, state, cuts_remaining });
        proof {
            assert(steps@.map_values(|s: ReductionStep| (s.ps.links@, s.rule)) =~= before.map_values(
                |s: ReductionStep| (s.ps.links@, s.rule),
            ).push((cur.links@, rule)));
        }
        if cuts_remaining == 0 || idx >= bound {
            proof {
                assert(here =~= seq![(cur.links@, rule)]);
                assert(whole =~= steps@.map_values(|s: ReductionStep| (s.ps.links@, s.rule)));
                assert forall|k: int| 0 <= k < steps.len() implies whole[k] == ((#[trigger] steps@[k]).ps.links@, steps@[k].rule) by {
                    assert(whole[k] == steps@.map_values(|s: ReductionStep| (s.ps.links@, s.rule))[k]);
                }
            }
            break;
        }
        match reduce_one_cut(&cur.links) {
            Some((next, r)) => {
                proof {
                    assert(here =~= seq![(cur.links@, rule)] + trajectory(next@, r, (idx + 1) as nat, bound as nat));
                }
                cur = ProofStructure { links: next };
                rule = r;
                idx += 1;
                proof {
                    assert(whole =~= steps@.map_values(|s: ReductionStep| (s.ps.links@, s.rule)) + trajectory(cur.links@, rule, idx as nat, bound as nat));
                }
            },
            None => {
                proof {
                    assert(here =~= seq![(cur.links@, rule)]);
                    assert(whole =~= steps@.map_values(|s: ReductionStep| (s.ps.links@, s.rule)));
                    assert forall|k: int| 0 <= k < steps.len() implies whole[k] == ((#[trigger] steps@[k]).ps.links@, steps@[k].rule) by {
                        assert(whole[k] == steps@.map_values(|s: ReductionStep| (s.ps.links@, s.rule))[k]);
                    }
                }
                break;
            },
        }
    }
    steps
}

/// The `state` terms of a trajectory, in order.
pub fn trace_states(steps: &[ReductionStep]) -> (r: Vec<Term>)
    ensures
        r.len() == steps@.len(),
        forall|k: int| 0 <= k < steps@.len() ==> (#[trigger] r@[k])@ == steps@[k].state@,
{
    let mut out: Vec<Term> = Vec::new();
    let mut i: usize = 0;
    while i < steps.len()
        invariant
            i <= steps@.len(),
            out.len() == i,
            forall|k: int| 0 <= k < i ==> (#[trigger] out@[k])@ == steps@[k].state@,
        decreases steps@.len() - i,
    {
        out.push(steps[i].state.clone());
        i += 1;
    }
    out
}

/// A trajectory starts at its given state, takes at most one step per unit
/// of the bound, and only its last state may be cut-free.
pub proof fn lemma_trajectory_shape(links: Seq<LinkKind>, rule: CutRule, idx: nat, bound: nat)
    ensures
        trajectory(links, rule, idx, bound).len() >= 1,
        trajectory(links, rule, idx, bound)[0] == (links, rule),
        idx <= bound ==> trajectory(links, rule, idx, bound).len() <= bound - idx + 1,
        forall|k: int|
            0 <= k < trajectory(links, rule, idx, bound).len() - 1 ==> cut_count(
                (#[trigger] trajectory(links, rule, idx, bound)[k]).0,
            ) > 0,
    decreases bound - idx,
{
    let t = trajectory(links, rule, idx, bound);
    if cut_count(links) == 0 || idx >= bound {
    } else {
        match reduce_from(links, 0) {
            Some((next, r)) => {
                lemma_trajectory_shape(next, r, idx + 1, bound);
                let rest = trajectory(next, r, idx + 1, bound);
                assert(t == seq![(links, rule)] + rest);
                assert forall|k: int| 0 <= k < t.len() - 1 implies cut_count((#[trigger] t[k]).0) > 0 by {
                    if k > 0 {
                        assert(t[k] == rest[k - 1]);
                    }
                }
            },
            None => {},
        }
    }
}

/// The cut links among the first `n` links at the skipped positions.
pub open spec fn skipped_cuts(links: Seq<LinkKind>, skip: Set<int>, n: int) -> nat
    decreases n,
{
    if n <= 0 {
        0
    } else {
        skipped_cuts(links, skip, n - 1) + if skip.contains(n - 1) && links[n - 1] is Cut {
            1nat
        } else {
            0nat
        }
    }
}

proof fn lemma_cut_count_push(s: Seq<LinkKind>, x: LinkKind)
    ensures
        cut_count(s.push(x)) == cut_count(s) + if x is Cut {
            1nat
        } else {
            0nat
        },
{
    assert(s.push(x).drop_last() =~= s);
}

proof fn lemma_cut_count_rebuild(links: Seq<LinkKind>, skip: Set<int>, from: VId, to: VId, n: int)
    requires
        0 <= n <= links.len(),
    ensures
        cut_count(rebuild(links, skip, from, to, n)) + skipped_cuts(links, skip, n) == cut_count(
            links.take(n),
        ),
    decreases n,
{
    if n > 0 {
        lemma_cut_count_rebuild(links, skip, from, to, n - 1);
        assert(links.take(n).drop_last() =~= links.take(n - 1));
        let rest = rebuild(links, skip, from, to, n - 1);
        if !skip.contains(n - 1) {
            lemma_cut_count_push(rest, rename_link(links[n - 1], from, to));
        }
    } else {
        assert(links.take(n) =~= Seq::<LinkKind>::empty());
    }
}

proof fn lemma_skipped_one_cut(links: Seq<LinkKind>, skip: Set<int>, c: int, n: int)
    requires
        0 <= c < links.len(),
        skip.contains(c),
        links[c] is Cut,
        forall|k: int| #[trigger] skip.contains(k) && k != c ==> !(links[k] is Cut),
    ensures
        skipped_cuts(links, skip, n) == if c < n {
            1nat
        } else {
            0nat
        },
    decreases n,
{
    if n > 0 {
        lemma_skipped_one_cut(links, skip, c, n - 1);
    }
}

/// A reduction step changes the number of cuts by one: an axiom step
/// removes the cut it reduces, a multiplicative step replaces one cut by two.
pub proof fn lemma_reduce_at_cut_count(links: Seq<LinkKind>, ci: int)
    requires
        0 <= ci < links.len(),
        reduce_at(links, ci) is Some,
    ensures
        ({
            let (next, r) = reduce_at(links, ci).unwrap();
            ||| r == CutRule::AxCut && cut_count(next) + 1 == cut_count(links)
            ||| r == CutRule::MultiplicativeCut && cut_count(next) == cut_count(links) + 1
        }),
{
    let n = links.len() as int;
    assert(links.take(n) =~= links);
    match links[ci] {
        LinkKind::Cut { left: cl, right: cr } => {
            if exists|i: int| first_ax(links, cl, i) {
                let i = choose|i: int| first_ax(links, cl, i);
                let to = ax_at(links[i], cl).unwrap();
                lemma_cut_count_rebuild(links, set![i, ci], cr, to, n);
                lemma_skipped_one_cut(links, set![i, ci], ci, n);
            } else if exists|i: int| first_ax(links, cr, i) {
                let i = choose|i: int| first_ax(links, cr, i);
                let to = ax_at(links[i], cr).unwrap();
                lemma_cut_count_rebuild(links, set![i, ci], cl, to, n);
                lemma_skipped_one_cut(links, set![i, ci], ci, n);
            } else {
                let a = choose|i: int| first_conn(links, cl, i);
                let b = choose|i: int| first_conn(links, cr, i);
                let (ti, pi) = if links[a] is Tensor && links[b] is Par {
                    (a, b)
                } else {
                    (b, a)
                };
                let (tl, tr) = conn_premises(links[ti], if ti == a { cl } else { cr }).unwrap();
                let (pl, pr) = conn_premises(links[pi], if pi == a { cl } else { cr }).unwrap();
                let base = rebuild(links, set![ci, ti, pi], cl, cl, n);
                lemma_cut_count_rebuild(links, set![ci, ti, pi], cl, cl, n);
                lemma_skipped_one_cut(links, set![ci, ti, pi], ci, n);
                lemma_cut_count_push(base, LinkKind::Cut { left: tl, right: pl });
                lemma_cut_count_push(
                    base.push(LinkKind::Cut { left: tl, right: pl }),
                    LinkKind::Cut { left: tr, right: pr },
                );
            }
        },
        _ => {},
    }
}

proof fn lemma_reduce_from_cut_count(links: Seq<LinkKind>, i: int)
    requires
        reduce_from(links, i) is Some,
    ensures
        ({
            let (next, r) = reduce_from(links, i).unwrap();
            ||| r == CutRule::AxCut && cut_count(next) + 1 == cut_count(links)
            ||| r == CutRule::MultiplicativeCut && cut_count(next) == cut_count(links) + 1
        }),
    decreases links.len() - i,
{
    if reduce_at(links, i) is Some {
        lemma_reduce_at_cut_count(links, i);
    } else {
        lemma_reduce_from_cut_count(links, i + 1);
    }
}

/// Along a cut-elimination trajectory every state after the first is reached
/// by an axiom step, which removes one cut, or by a multiplicative step,
/// which adds one.
pub proof fn lemma_trajectory_cut_steps(links: Seq<LinkKind>, rule: CutRule, idx: nat, bound: nat)
    ensures
        forall|k: int|
            0 < k < trajectory(links, rule, idx, bound).len() ==> {
                let (prev, _) = trajectory(links, rule, idx, bound)[k - 1];
                let (cur, r) = #[trigger] trajectory(links, rule, idx, bound)[k];
                ||| r == CutRule::AxCut && cut_count(cur) + 1 == cut_count(prev)
                ||| r == CutRule::MultiplicativeCut && cut_count(cur) == cut_count(prev) + 1
            },
    decreases bound - idx,
{
    let t = trajectory(links, rule, idx, bound);
    if cut_count(links) == 0 || idx >= bound {
    } else {
        match reduce_from(links, 0) {
            Some((next, r)) => {
                lemma_reduce_from_cut_count(links, 0);
                lemma_trajectory_cut_steps(next, r, idx + 1, bound);
                lemma_trajectory_shape(next, r, idx + 1, bound);
                let rest = trajectory(next, r, idx + 1, bound);
                assert(t == seq![(links, rule)] + rest);
                assert forall|k: int| 0 < k < t.len() implies {
                    let (prev, _) = t[k - 1];
                    let (cur, rr) = #[trigger] t[k];
                    ||| rr == CutRule::AxCut && cut_count(cur) + 1 == cut_count(prev)
                    ||| rr == CutRule::MultiplicativeCut && cut_count(cur) == cut_count(prev) + 1
                } by {
                    if k > 1 {
                        assert(t[k] == rest[k - 1]);
                        assert(t[k - 1] == rest[k - 2]);
                    } else {
                        assert(t[1] == rest[0]);
                    }
                }
            },
            None => {},
        }
    }
}

/// Renaming a vertex to itself leaves a link as it is.
proof fn lemma_rename_link_same(l: LinkKind, v: VId)
    ensures
        rename_link(l, v, v) == l,
{
}

/// The links kept by `rebuild` with no renaming: its links are links of
/// `links` at unskipped positions, each such link is kept, and three
/// skipped positions below `n` make it three links shorter.
proof fn lemma_rebuild_keep(links: Seq<LinkKind>, a: int, b: int, c: int, v: VId, n: int)
    requires
        0 <= n <= links.len(),
        a != b && b != c && a != c,
    ensures
        ({
            let r = rebuild(links, set![a, b, c], v, v, n);
            &&& r.len() == n - (if 0 <= a < n { 1int } else { 0 }) - (if 0 <= b < n { 1int } else { 0 }) - (
            if 0 <= c < n { 1int } else { 0 })
            &&& forall|k: int| 0 <= k < r.len() ==> exists|m: int|
                0 <= m < n && m != a && m != b && m != c && #[trigger] r[k] == links[m]
            &&& forall|m: int| 0 <= m < n && m != a && m != b && m != c ==> exists|k: int|
                0 <= k < r.len() && r[k] == #[trigger] links[m]
        }),
    decreases n,
{
    if n > 0 {
        lemma_rebuild_keep(links, a, b, c, v, n - 1);
        let rest = rebuild(links, set![a, b, c], v, v, n - 1);
        let r = rebuild(links, set![a, b, c], v, v, n);
        if set![a, b, c].contains(n - 1) {
            assert(r == rest);
            assert forall|m: int| 0 <= m < n && m != a && m != b && m != c implies exists|k: int|
                0 <= k < r.len() && r[k] == #[trigger] links[m] by {
                assert(m < n - 1);
            }
        } else {
            lemma_rename_link_same(links[n - 1], v);
            assert(r == rest.push(links[n - 1]));
            assert forall|k: int| 0 <= k < r.len() implies exists|m: int|
                0 <= m < n && m != a && m != b && m != c && #[trigger] r[k] == links[m] by {
                if k < rest.len() {
                    assert(r[k] == rest[k]);
                } else {
                    assert(r[k] == links[n - 1]);
                }
            }
            assert forall|m: int| 0 <= m < n && m != a && m != b && m != c implies exists|k: int|
                0 <= k < r.len() && r[k] == #[trigger] links[m] by {
                if m < n - 1 {
                    let k = choose|k: int| 0 <= k < rest.len() && rest[k] == links[m];
                    assert(r[k] == rest[k]);
                } else {
                    assert(r[rest.len() as int] == links[m]);
                }
            }
        }
    }
}

/// The multiplicative step. A cut between the conclusion `t` of a tensor
/// with premises `tl`, `tr` and the conclusion `p` of a par with premises
/// `pl`, `pr` (in either order), where no other tensor or par concludes `t`
/// or `p` and no axiom ends there, is replaced by the two cuts `tl`–`pl` and
/// `tr`–`pr`, premises matched side by side; the cut, the tensor and the par
/// go, and every other link stays.
pub proof fn lemma_reduce_tensor_par(
    links: Seq<LinkKind>,
    ci: int,
    ti: int,
    pi: int,
    tl: VId,
    tr: VId,
    t: VId,
    pl: VId,
    pr: VId,
    p: VId,
)
    requires
        0 <= ci < links.len(),
        0 <= ti < links.len(),
        0 <= pi < links.len(),
        links[ci] == (LinkKind::Cut { left: t, right: p }) || links[ci] == (LinkKind::Cut { left: p, right: t }),
        links[ti] == (LinkKind::Tensor { left: tl, right: tr, output: t }),
        links[pi] == (LinkKind::Par { left: pl, right: pr, output: p }),
        forall|k: int| 0 <= k < links.len() && k != ti ==> conn_premises(#[trigger] links[k], t) is None,
        forall|k: int| 0 <= k < links.len() && k != pi ==> conn_premises(#[trigger] links[k], p) is None,
        forall|k: int|
            0 <= k < links.len() ==> ax_at(#[trigger] links[k], t) is None && ax_at(links[k], p) is None,
    ensures
        reduce_at(links, ci) is Some,
        ({
            let (nl, rule) = reduce_at(links, ci).unwrap();
            &&& rule == CutRule::MultiplicativeCut
            &&& nl.len() == links.len() - 1
            &&& nl[nl.len() - 2] == (LinkKind::Cut { left: tl, right: pl })
            &&& nl[nl.len() - 1] == (LinkKind::Cut { left: tr, right: pr })
            &&& forall|k: int| 0 <= k < nl.len() - 2 ==> exists|m: int|
                0 <= m < links.len() && m != ci && m != ti && m != pi && #[trigger] nl[k] == links[m]
            &&& forall|m: int| 0 <= m < links.len() && m != ci && m != ti && m != pi ==> exists|k: int|
                0 <= k < nl.len() - 2 && nl[k] == #[trigger] links[m]
        }),
{
    let n = links.len() as int;
    let (cl, cr) = match links[ci] {
        LinkKind::Cut { left, right } => (left, right),
        _ => (t, p),
    };
    assert(!exists|i: int| first_ax(links, cl, i));
    assert(!exists|i: int| first_ax(links, cr, i));
    assert(first_conn(links, t, ti));
    assert(first_conn(links, p, pi));
    assert forall|i: int| first_conn(links, t, i) implies i == ti by {}
    assert forall|i: int| first_conn(links, p, i) implies i == pi by {}
    let a = choose|i: int| first_conn(links, cl, i);
    let b = choose|i: int| first_conn(links, cr, i);
    if cl == t {
        assert(a == ti && b == pi);
    } else {
        assert(a == pi && b == ti);
    }
    let base = rebuild(links, set![ci, ti, pi], cl, cl, n);
    lemma_rebuild_keep(links, ci, ti, pi, cl, n);
    assert(set![ci, ti, pi] == set![ci, ti, pi]);
    let nl = base.push(LinkKind::Cut { left: tl, right: pl }).push(LinkKind::Cut { left: tr, right: pr });
    assert(reduce_at(links, ci) == Some((nl, CutRule::MultiplicativeCut)));
    assert forall|k: int| 0 <= k < nl.len() - 2 implies exists|m: int|
        0 <= m < links.len() && m != ci && m != ti && m != pi && #[trigger] nl[k] == links[m] by {
        assert(nl[k] == base[k]);
    }
    assert forall|m: int| 0 <= m < links.len() && m != ci && m != ti && m != pi implies exists|k: int|
        0 <= k < nl.len() - 2 && nl[k] == #[trigger] links[m] by {
        let k = choose|k: int| 0 <= k < base.len() && base[k] == links[m];
        assert(nl[k] == base[k]);
    }
}

/// `rebuild` with two skipped positions: three links fewer is two here, and
/// each kept link is renamed.
proof fn lemma_rebuild_keep_renamed(links: Seq<LinkKind>, a: int, b: int, from: VId, to: VId, n: int)
    requires
        0 <= n <= links.len(),
        a != b,
    ensures
        ({
            let r = rebuild(links, set![a, b], from, to, n);
            &&& r.len() == n - (if 0 <= a < n { 1int } else { 0 }) - (if 0 <= b < n { 1int } else { 0 })
            &&& forall|k: int| 0 <= k < r.len() ==> exists|m: int|
                0 <= m < n && m != a && m != b && #[trigger] r[k] == rename_link(links[m], from, to)
            &&& forall|m: int| 0 <= m < n && m != a && m != b ==> exists|k: int|
                0 <= k < r.len() && r[k] == rename_link(#[trigger] links[m], from, to)
        }),
    decreases n,
{
    if n > 0 {
        lemma_rebuild_keep_renamed(links, a, b, from, to, n - 1);
        let rest = rebuild(links, set![a, b], from, to, n - 1);
        let r = rebuild(links, set![a, b], from, to, n);
        if set![a, b].contains(n - 1) {
            assert(r == rest);
            assert forall|m: int| 0 <= m < n && m != a && m != b implies exists|k: int|
                0 <= k < r.len() && r[k] == rename_link(#[trigger] links[m], from, to) by {
                assert(m < n - 1);
            }
        } else {
            assert(r == rest.push(rename_link(links[n - 1], from, to)));
            assert forall|k: int| 0 <= k < r.len() implies exists|m: int|
                0 <= m < n && m != a && m != b && #[trigger] r[k] == rename_link(links[m], from, to) by {
                if k < rest.len() {
                    assert(r[k] == rest[k]);
                } else {
                    assert(r[k] == rename_link(links[n - 1], from, to));
                }
            }
            assert forall|m: int| 0 <= m < n && m != a && m != b implies exists|k: int|
                0 <= k < r.len() && r[k] == rename_link(#[trigger] links[m], from, to) by {
                if m < n - 1 {
                    let k = choose|k: int| 0 <= k < rest.len() && rest[k] == rename_link(links[m], from, to);
                    assert(r[k] == rest[k]);
                } else {
                    assert(r[rest.len() as int] == rename_link(links[m], from, to));
                }
            }
        }
    }
}

/// The axiom step, axiom at the left end. A cut between `cl` and `cr`, where
/// `cl` is an end of exactly one axiom whose other end is `a`: the cut and
/// that axiom go, and every other link stays with `cr` renamed `a`.
pub proof fn lemma_reduce_ax_left(links: Seq<LinkKind>, ci: int, i: int, cl: VId, cr: VId, a: VId)
    requires
        0 <= ci < links.len(),
        0 <= i < links.len(),
        links[ci] == (LinkKind::Cut { left: cl, right: cr }),
        links[i] == (LinkKind::Ax { left: a, right: cl }) || links[i] == (LinkKind::Ax { left: cl, right: a }),
        forall|k: int| 0 <= k < links.len() && k != i ==> ax_at(#[trigger] links[k], cl) is None,
    ensures
        reduce_at(links, ci) is Some,
        ({
            let (nl, rule) = reduce_at(links, ci).unwrap();
            &&& rule == CutRule::AxCut
            &&& nl.len() == links.len() - 2
            &&& forall|k: int| 0 <= k < nl.len() ==> exists|m: int|
                0 <= m < links.len() && m != ci && m != i && #[trigger] nl[k] == rename_link(links[m], cr, a)
            &&& forall|m: int| 0 <= m < links.len() && m != ci && m != i ==> exists|k: int|
                0 <= k < nl.len() && nl[k] == rename_link(#[trigger] links[m], cr, a)
        }),
{
    assert(first_ax(links, cl, i));
    assert forall|k: int| first_ax(links, cl, k) implies k == i by {}
    assert(ax_at(links[i], cl) == Some(a));
    lemma_rebuild_keep_renamed(links, i, ci, cr, a, links.len() as int);
    assert(reduce_at(links, ci) == Some((rebuild(links, set![i, ci], cr, a, links.len() as int), CutRule::AxCut)));
}

proof fn lemma_reduce_ax_right_value(links: Seq<LinkKind>, ci: int, i: int, cl: VId, cr: VId, a: VId)
    requires
        0 <= ci < links.len(),
        0 <= i < links.len(),
        links[ci] == (LinkKind::Cut { left: cl, right: cr }),
        links[i] == (LinkKind::Ax { left: a, right: cr }) || links[i] == (LinkKind::Ax { left: cr, right: a }),
        forall|k: int| 0 <= k < links.len() ==> ax_at(#[trigger] links[k], cl) is None,
        forall|k: int| 0 <= k < links.len() && k != i ==> ax_at(#[trigger] links[k], cr) is None,
    ensures
        reduce_at(links, ci) == Some((rebuild(links, set![i, ci], cl, a, links.len() as int), CutRule::AxCut)),
{
    assert(!exists|k: int| first_ax(links, cl, k));
    assert(first_ax(links, cr, i));
    assert forall|k: int| first_ax(links, cr, k) implies k == i by {}
    assert(ax_at(links[i], cr) == Some(a));
}

/// The axiom step, axiom at the right end only. A cut between `cl` and `cr`,
/// where no axiom ends at `cl` and `cr` is an end of exactly one axiom whose
/// other end is `a`: the cut and that axiom go, and every other link stays
/// with `cl` renamed `a`.
pub proof fn lemma_reduce_ax_right(links: Seq<LinkKind>, ci: int, i: int, cl: VId, cr: VId, a: VId)
    requires
        0 <= ci < links.len(),
        0 <= i < links.len(),
        links[ci] == (LinkKind::Cut { left: cl, right: cr }),
        links[i] == (LinkKind::Ax { left: a, right: cr }) || links[i] == (LinkKind::Ax { left: cr, right: a }),
        forall|k: int| 0 <= k < links.len() ==> ax_at(#[trigger] links[k], cl) is None,
        forall|k: int| 0 <= k < links.len() && k != i ==> ax_at(#[trigger] links[k], cr) is None,
    ensures
        reduce_at(links, ci) is Some,
        reduce_at(links, ci)->Some_0.1 == CutRule::AxCut,
        reduce_at(links, ci)->Some_0.0.len() == links.len() - 2,
        forall|k: int| 0 <= k < reduce_at(links, ci)->Some_0.0.len() ==> exists|m: int|
            0 <= m < links.len() && m != ci && m != i && #[trigger] reduce_at(links, ci)->Some_0.0[k]
                == rename_link(links[m], cl, a),
        forall|m: int| 0 <= m < links.len() && m != ci && m != i ==> exists|k: int|
            0 <= k < reduce_at(links, ci)->Some_0.0.len() && reduce_at(links, ci)->Some_0.0[k] == rename_link(
                #[trigger] links[m],
                cl,
                a,
            ),
{
    lemma_reduce_ax_right_value(links, ci, i, cl, cr, a);
    lemma_rebuild_keep_renamed(links, i, ci, cl, a, links.len() as int);
}

} // verus!
