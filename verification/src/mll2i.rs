//! MLL2I proof-structures (§73–§75): multiplicative links extended with the
//! exponential connectives `⊛` and `⋊` and the structural links weakening,
//! dereliction and contraction; their path addresses over the exponential
//! basis, the computational content `Φ^comp = Φ^ax ⊎ Φ^cut` with black-hole
//! stars for weakenings, switchings, linear conclusions, the test
//! constellations of Girard's criterion and its cut-cycle surrogate.
//!
//! The exponential basis adds the binary neutral symbol `•` (written
//! `t • u`), the constants `d`, `1`, `r` and the box variables `Y<i>`.
use vstd::prelude::*;
use vstd::string::StringExecFns;
use crate::term::{lemma_views_of, views_of, Polarity, Sym, Term, TermV, Var, VarV};
use crate::constellation::{cons_v, Constellation, Star};
use crate::display::{digits, usize_text};
use crate::mll::{
    app2, cnst, constant, lemma_cons_v_push, lemma_star2, polarise_ray, positive_head,
    step_l, step_r, stars_v, var_x, xv, equiv_up_to_renaming,
};
use crate::termkit::{tvar, var};
use crate::subst::{apply, bindings_view, pairs_map, single, Substitution};
use crate::mll::{nth_bit, switching_choices, choices_of, within, widen, vid_in};
use vstd::arithmetic::power2::{pow2, lemma2_to64, lemma_pow2_unfold, lemma_pow2_strictly_increases};
use std::collections::HashMap;

verus! {

broadcast use vstd::std_specs::vec::group_vec_axioms, vstd::std_specs::hash::group_hash_axioms;

// ─────────────────────────────────────────────────────────────────────────
// Vertices, formulas, links and proof-structures (§73)
// ─────────────────────────────────────────────────────────────────────────

/// A vertex of an MLL2I proof-structure, written by its decimal number.
#[derive(Debug, Clone, Copy, PartialEq, Eq, Hash, PartialOrd, Ord, Structural)]
pub struct VId(pub u32);

/// The written name of a vertex.
pub open spec fn vname(v: VId) -> Seq<char> {
    digits(v.0 as nat)
}

impl VId {
    /// The decimal name of the vertex (`7` for vertex 7).
    pub fn name(self) -> (r: String)
        ensures
            r@ == vname(self),
    {
        usize_text(self.0 as usize)
    }
}

/// MLL2I pre-formula (§73.3): atoms, their duals, `⊗`, `⅋`, `⊛`, `⋊`.
#[derive(Debug, PartialEq, Eq)]
pub enum PreFormula {
    Atom(u32),
    AtomDual(u32),
    Tensor(Box<PreFormula>, Box<PreFormula>),
    Par(Box<PreFormula>, Box<PreFormula>),
    ETensor(Box<PreFormula>, Box<PreFormula>),
    EPar(Box<PreFormula>, Box<PreFormula>),
}

/// MLL2I formula (§73.4): a pre-formula, or an underlined one (`?C`).
#[derive(Debug, PartialEq, Eq)]
pub enum Formula {
    Linear(PreFormula),
    Underlined(PreFormula),
}

impl PreFormula {
    /// A copy of the pre-formula.
    pub fn dup(&self) -> (r: PreFormula)
        ensures
            r == *self,
        decreases self,
    {
        match self {
            PreFormula::Atom(i) => PreFormula::Atom(*i),
            PreFormula::AtomDual(i) => PreFormula::AtomDual(*i),
            PreFormula::Tensor(a, b) => PreFormula::Tensor(Box::new(a.dup()), Box::new(b.dup())),
            PreFormula::Par(a, b) => PreFormula::Par(Box::new(a.dup()), Box::new(b.dup())),
            PreFormula::ETensor(a, b) => PreFormula::ETensor(Box::new(a.dup()), Box::new(b.dup())),
            PreFormula::EPar(a, b) => PreFormula::EPar(Box::new(a.dup()), Box::new(b.dup())),
        }
    }
}

impl Clone for PreFormula {
    fn clone(&self) -> (r: Self)
        ensures
            r == *self,
    {
        self.dup()
    }
}

impl Clone for Formula {
    fn clone(&self) -> (r: Self)
        ensures
            r == *self,
    {
        match self {
            Formula::Linear(c) => Formula::Linear(c.dup()),
            Formula::Underlined(c) => Formula::Underlined(c.dup()),
        }
    }
}

/// A link of an MLL2I proof-structure (§73.9).
#[derive(Debug, Clone, Copy, PartialEq, Eq, Structural)]
pub enum LinkKind {
    /// Axiom, with its two conclusions.
    Ax { left: VId, right: VId },
    /// Cut, with its two premises.
    Cut { left: VId, right: VId },
    /// Tensor `⊗`.
    Tensor { left: VId, right: VId, output: VId },
    /// Par `⅋`.
    Par { left: VId, right: VId, output: VId },
    /// Left-exponential par `⋊`.
    EPar { left: VId, right: VId, output: VId },
    /// Left-exponential tensor `⊛`.
    ETensor { left: VId, right: VId, output: VId },
    /// Weakening, with its conclusion.
    Weakening { output: VId },
    /// Dereliction, with its premise and conclusion.
    Dereliction { input: VId, output: VId },
    /// Contraction, with its two premises and conclusion.
    Contraction { left: VId, right: VId, output: VId },
}

/// An MLL2I proof-structure: its links, and the next free box-variable index.
#[derive(Debug)]
pub struct ProofStructure {
    pub links: Vec<LinkKind>,
    pub next_box_var: u32,
}

fn copy_links(links: &Vec<LinkKind>) -> (r: Vec<LinkKind>)
    ensures
        r@ == links@,
{
    let mut r: Vec<LinkKind> = Vec::new();
    let mut i: usize = 0;
    while i < links.len()
        invariant
            i <= links.len(),
            r@ == links@.take(i as int),
        decreases links.len() - i,
    {
        r.push(links[i]);
        i += 1;
        assert(r@ =~= links@.take(i as int));
    }
    assert(r@ =~= links@);
    r
}

impl Clone for ProofStructure {
    fn clone(&self) -> (r: Self)
        ensures
            r.links@ == self.links@,
            r.next_box_var == self.next_box_var,
    {
        ProofStructure { links: copy_links(&self.links), next_box_var: self.next_box_var }
    }
}

/// The links of one kind, in order.
fn filter_kind(links: &Vec<LinkKind>, kind: u8) -> (r: Vec<LinkKind>)
    requires
        kind < 3,
    ensures
        kind == 0 ==> r@ == links@.filter(|l: LinkKind| l is Ax),
        kind == 1 ==> r@ == links@.filter(|l: LinkKind| l is Cut),
        kind == 2 ==> r@ == links@.filter(|l: LinkKind| l is Weakening),
{
    let ghost f = if kind == 0 {
        |l: LinkKind| l is Ax
    } else if kind == 1 {
        |l: LinkKind| l is Cut
    } else {
        |l: LinkKind| l is Weakening
    };
    let mut r: Vec<LinkKind> = Vec::new();
    let mut i: usize = 0;
    while i < links.len()
        invariant
            i <= links.len(),
            kind < 3,
            f == (if kind == 0 {
                |l: LinkKind| l is Ax
            } else if kind == 1 {
                |l: LinkKind| l is Cut
            } else {
                |l: LinkKind| l is Weakening
            }),
            r@ == links@.take(i as int).filter(f),
        decreases links.len() - i,
    {
        let l = links[i];
        let keep = match l {
            LinkKind::Ax { .. } => kind == 0,
            LinkKind::Cut { .. } => kind == 1,
            LinkKind::Weakening { .. } => kind == 2,
            _ => false,
        };
        proof {
            reveal_with_fuel(Seq::<LinkKind>::filter, 1);
            assert(links@.take(i + 1).drop_last() =~= links@.take(i as int));
        }
        if keep {
            r.push(l);
        }
        i += 1;
    }
    assert(links@.take(links.len() as int) =~= links@);
    r
}

impl ProofStructure {
    /// The empty proof-structure, with box variables counted from 0.
    pub fn new() -> (r: Self)
        ensures
            r.links@ == Seq::<LinkKind>::empty(),
            r.next_box_var == 0,
    {
        ProofStructure { links: Vec::new(), next_box_var: 0 }
    }

    /// Adds a link at the end.
    pub fn add_link(&mut self, link: LinkKind)
        ensures
            final(self).links@ == old(self).links@.push(link),
            final(self).next_box_var == old(self).next_box_var,
    {
        self.links.push(link);
    }

    /// The axiom links, in order.
    pub fn axioms(&self) -> (r: Vec<LinkKind>)
        ensures
            r@ == self.links@.filter(|l: LinkKind| l is Ax),
    {
        filter_kind(&self.links, 0)
    }

    /// The cut links, in order.
    pub fn cuts(&self) -> (r: Vec<LinkKind>)
        ensures
            r@ == self.links@.filter(|l: LinkKind| l is Cut),
    {
        filter_kind(&self.links, 1)
    }

    /// The weakening links, in order.
    pub fn weakenings(&self) -> (r: Vec<LinkKind>)
        ensures
            r@ == self.links@.filter(|l: LinkKind| l is Weakening),
    {
        filter_kind(&self.links, 2)
    }

    /// Takes the next box-variable index and advances the counter.
    pub fn alloc_box_var(&mut self) -> (r: u32)
        requires
            old(self).next_box_var < u32::MAX,
        ensures
            r == old(self).next_box_var,
            final(self).next_box_var == old(self).next_box_var + 1,
            final(self).links@ == old(self).links@,
    {
        let i = self.next_box_var;
        self.next_box_var = self.next_box_var + 1;
        i
    }
}

impl Default for ProofStructure {
    fn default() -> (r: Self)
        ensures
            r.links@ == Seq::<LinkKind>::empty(),
            r.next_box_var == 0,
    {
        ProofStructure::new()
    }
}

// ─────────────────────────────────────────────────────────────────────────
// The exponential basis (§74.2)
// ─────────────────────────────────────────────────────────────────────────

/// `t • u`.
pub open spec fn bul(t: TermV, u: TermV) -> TermV {
    TermV::App(seq!['•'], Polarity::Neutral, seq![t, u])
}

/// The box variable `Y<i>`.
pub open spec fn yvar(i: nat) -> TermV {
    tvar(seq!['Y'] + digits(i))
}

/// `t • u`.
pub fn bullet(t: Term, u: Term) -> (r: Term)
    ensures
        r@ == bul(t@, u@),
{
    proof {
        reveal_strlit("•");
        assert("•"@ =~= seq!['•']);
    }
    app2("•", t, u)
}

/// `t • d` (dereliction).
pub fn bullet_d(t: Term) -> (r: Term)
    ensures
        r@ == bul(t@, cnst(seq!['d'])),
{
    proof {
        reveal_strlit("d");
        assert("d"@ =~= seq!['d']);
    }
    bullet(t, constant("d"))
}

/// `t • (1 · u)` (left premise of a contraction).
pub fn bullet_left(t: Term, u: Term) -> (r: Term)
    ensures
        r@ == bul(t@, step_l(u@)),
{
    bullet(t, path_left(u))
}

/// `t • (r · u)` (right premise of a contraction).
pub fn bullet_right(t: Term, u: Term) -> (r: Term)
    ensures
        r@ == bul(t@, step_r(u@)),
{
    bullet(t, path_right(u))
}

/// `(1 · t) • Y` (left premise of a `⊛`).
pub fn bullet_box_left(t: Term, y_i: Term) -> (r: Term)
    ensures
        r@ == bul(step_l(t@), y_i@),
{
    bullet(path_left(t), y_i)
}

/// `(r · t) • Y` (right premise of a `⊛`).
pub fn bullet_box_right(t: Term, y_i: Term) -> (r: Term)
    ensures
        r@ == bul(step_r(t@), y_i@),
{
    bullet(path_right(t), y_i)
}

/// `1 · t`.
pub fn path_left(t: Term) -> (r: Term)
    ensures
        r@ == step_l(t@),
{
    crate::mll::path_left(t)
}

/// `r · t`.
pub fn path_right(t: Term) -> (r: Term)
    ensures
        r@ == step_r(t@),
{
    crate::mll::path_right(t)
}

/// The box variable `Y<i>`.
pub fn box_var(i: u32) -> (r: Term)
    ensures
        r@ == yvar(i as nat),
{
    proof {
        reveal_strlit("Y");
        assert("Y"@ =~= seq!['Y']);
    }
    let name = String::from_str("Y").concat(usize_text(i as usize).as_str());
    var(name.as_str())
}

// ─────────────────────────────────────────────────────────────────────────
// Path addresses (§74.5)
// ─────────────────────────────────────────────────────────────────────────

/// `v` is a premise of the link: of a `⊗`, `⅋`, `⋊`, `⊛` or contraction, or
/// the premise of a dereliction. Cut premises do not count.
pub open spec fn consumes(l: LinkKind, v: VId) -> bool {
    match l {
        LinkKind::Tensor { left, right, .. } => left == v || right == v,
        LinkKind::Par { left, right, .. } => left == v || right == v,
        LinkKind::EPar { left, right, .. } => left == v || right == v,
        LinkKind::ETensor { left, right, .. } => left == v || right == v,
        LinkKind::Contraction { left, right, .. } => left == v || right == v,
        LinkKind::Dereliction { input, .. } => input == v,
        _ => false,
    }
}

/// The conclusion of a link that has exactly one.
pub open spec fn link_out(l: LinkKind) -> Option<VId> {
    match l {
        LinkKind::Tensor { output, .. } => Some(output),
        LinkKind::Par { output, .. } => Some(output),
        LinkKind::EPar { output, .. } => Some(output),
        LinkKind::ETensor { output, .. } => Some(output),
        LinkKind::Weakening { output } => Some(output),
        LinkKind::Dereliction { output, .. } => Some(output),
        LinkKind::Contraction { output, .. } => Some(output),
        _ => None,
    }
}

/// `v` is produced by the link: an axiom conclusion or the link's conclusion.
pub open spec fn produces(l: LinkKind, v: VId) -> bool {
    match l {
        LinkKind::Ax { left, right } => left == v || right == v,
        _ => link_out(l) == Some(v),
    }
}

pub open spec fn consumed(links: Seq<LinkKind>, v: VId) -> bool {
    exists|i: int| 0 <= i < links.len() && consumes(#[trigger] links[i], v)
}

pub open spec fn produced(links: Seq<LinkKind>, v: VId) -> bool {
    exists|i: int| 0 <= i < links.len() && produces(#[trigger] links[i], v)
}

/// `i` is the first link consuming `v`.
pub open spec fn first_consumer(links: Seq<LinkKind>, v: VId, i: int) -> bool {
    &&& 0 <= i < links.len()
    &&& consumes(links[i], v)
    &&& forall|j: int| 0 <= j < i ==> !consumes(#[trigger] links[j], v)
}

/// The number of `⊛` links before position `i`.
pub open spec fn etensors_before(links: Seq<LinkKind>, i: int) -> nat {
    links.take(i).filter(|l: LinkKind| l is ETensor).len()
}

/// The variable `X_c` of contraction addresses.
pub open spec fn xcv() -> TermV {
    tvar(seq!['X', '_', 'c'])
}

/// `p` with its variable `X` replaced by `s`.
pub open spec fn at_leaf(p: TermV, s: TermV) -> TermV {
    apply(p, single(VarV::Named(seq!['X']), s))
}

/// The address of premise `v` of link `i`, from the address `p` of the
/// link's conclusion (§74.5). Through `⅋`, `⊗`, `⋊` the premise's step
/// `1 · X` (left) or `r · X` (right) takes the place of `X` in `p`, so that
/// the step of the link nearest the conclusion stays outermost, as in
/// `1 · pAddr_{S'}(v)`; through the `k`-th `⊛` the step is `(1 · X) • Y<k>`
/// or `(r · X) • Y<k>`. A dereliction premise's address is `p • d`, and a
/// contraction premise's `p • (1 · X_c)` or `p • (r · X_c)`: these suffixes
/// stay outermost (for `ax(1,2), d(2→3), ⋊(3,1→4)` the address of `2` is
/// `4((1 · X) • d)`).
pub open spec fn step_addr(links: Seq<LinkKind>, i: int, v: VId, p: TermV) -> TermV {
    match links[i] {
        LinkKind::Par { left, .. } => at_leaf(p, if left == v {
            step_l(xv())
        } else {
            step_r(xv())
        }),
        LinkKind::EPar { left, .. } => at_leaf(p, if left == v {
            step_l(xv())
        } else {
            step_r(xv())
        }),
        LinkKind::Tensor { left, .. } => at_leaf(p, if left == v {
            step_l(xv())
        } else {
            step_r(xv())
        }),
        LinkKind::ETensor { left, .. } => at_leaf(
            p,
            bul(
                if left == v {
                    step_l(xv())
                } else {
                    step_r(xv())
                },
                yvar(((etensors_before(links, i) as u32) as nat)),
            ),
        ),
        LinkKind::Dereliction { .. } => bul(p, cnst(seq!['d'])),
        LinkKind::Contraction { left, .. } => bul(
            p,
            if left == v {
                step_l(xcv())
            } else {
                step_r(xcv())
            },
        ),
        _ => p,
    }
}

/// The walk from `v` up to its conclusion: a vertex consumed by no link is
/// its own conclusion, with address `X`, when some link produces it;
/// otherwise the first link consuming `v` is followed to its conclusion,
/// whose address is extended by the step of `v` ([`step_addr`]). Each step spends one unit
/// of `fuel`.
pub open spec fn walk_up_spec(links: Seq<LinkKind>, v: VId, fuel: nat) -> Option<(VId, TermV)>
    decreases fuel,
{
    if !consumed(links, v) {
        if produced(links, v) {
            Some((v, xv()))
        } else {
            None
        }
    } else if fuel == 0 {
        None
    } else {
        let i = choose|i: int| first_consumer(links, v, i);
        match link_out(links[i]) {
            Some(o) => match walk_up_spec(links, o, (fuel - 1) as nat) {
                Some((c, p)) => Some((c, step_addr(links, i, v, p))),
                None => None,
            },
            None => None,
        }
    }
}

/// `pAddr(v)`: the conclusion above `v` and the path to it. An upward walk
/// that does not end within one step per link (it would go round a cycle of
/// links for ever) gives none.
pub open spec fn path_addr_spec(links: Seq<LinkKind>, v: VId) -> Option<(VId, TermV)> {
    walk_up_spec(links, v, links.len())
}

/// The ray `v(t)` with the given polarity.
pub open spec fn vray(v: VId, p: Polarity, t: TermV) -> TermV {
    TermV::App(vname(v), p, seq![t])
}

/// `addr(v) = c(pAddr(v))`.
pub open spec fn addr_spec(links: Seq<LinkKind>, v: VId) -> Option<TermV> {
    match path_addr_spec(links, v) {
        Some((c, p)) => Some(vray(c, Polarity::Neutral, p)),
        None => None,
    }
}

fn consumes_exec(l: LinkKind, v: VId) -> (r: bool)
    ensures
        r == consumes(l, v),
{
    match l {
        LinkKind::Tensor { left, right, .. } => left == v || right == v,
        LinkKind::Par { left, right, .. } => left == v || right == v,
        LinkKind::EPar { left, right, .. } => left == v || right == v,
        LinkKind::ETensor { left, right, .. } => left == v || right == v,
        LinkKind::Contraction { left, right, .. } => left == v || right == v,
        LinkKind::Dereliction { input, .. } => input == v,
        _ => false,
    }
}

fn link_out_exec(l: LinkKind) -> (r: Option<VId>)
    ensures
        r == link_out(l),
{
    match l {
        LinkKind::Tensor { output, .. } => Some(output),
        LinkKind::Par { output, .. } => Some(output),
        LinkKind::EPar { output, .. } => Some(output),
        LinkKind::ETensor { output, .. } => Some(output),
        LinkKind::Weakening { output } => Some(output),
        LinkKind::Dereliction { output, .. } => Some(output),
        LinkKind::Contraction { output, .. } => Some(output),
        _ => None,
    }
}

fn find_consumer(links: &Vec<LinkKind>, v: VId) -> (r: Option<usize>)
    ensures
        r is None <==> !consumed(links@, v),
        r is Some ==> first_consumer(links@, v, r.unwrap() as int),
{
    let mut i: usize = 0;
    while i < links.len()
        invariant
            i <= links.len(),
            forall|j: int| 0 <= j < i ==> !consumes(#[trigger] links@[j], v),
        decreases links.len() - i,
    {
        if consumes_exec(links[i], v) {
            return Some(i);
        }
        i += 1;
    }
    None
}

fn is_produced(links: &Vec<LinkKind>, v: VId) -> (r: bool)
    ensures
        r == produced(links@, v),
{
    let mut i: usize = 0;
    while i < links.len()
        invariant
            i <= links.len(),
            forall|j: int| 0 <= j < i ==> !produces(#[trigger] links@[j], v),
        decreases links.len() - i,
    {
        let l = links[i];
        let p = match l {
            LinkKind::Ax { left, right } => left == v || right == v,
            _ => link_out_exec(l) == Some(v),
        };
        if p {
            return true;
        }
        i += 1;
    }
    false
}

fn count_etensors(links: &Vec<LinkKind>, i: usize) -> (r: usize)
    requires
        i <= links.len(),
    ensures
        r == etensors_before(links@, i as int),
        r <= i,
{
    let mut n: usize = 0;
    let mut k: usize = 0;
    while k < i
        invariant
            k <= i,
            i <= links.len(),
            n == etensors_before(links@, k as int),
            n <= k,
        decreases i - k,
    {
        proof {
            reveal_with_fuel(Seq::<LinkKind>::filter, 1);
            assert(links@.take(k + 1).drop_last() =~= links@.take(k as int));
        }
        match links[k] {
            LinkKind::ETensor { .. } => {
                n += 1;
            },
            _ => {},
        }
        k += 1;
    }
    n
}

fn var_xc() -> (r: Term)
    ensures
        r@ == xcv(),
{
    proof {
        reveal_strlit("X_c");
        assert("X_c"@ =~= seq!['X', '_', 'c']);
    }
    var("X_c")
}

/// `p` with its variable `X` replaced by `s`.
fn at_leaf_exec(p: &Term, s: Term) -> (r: Term)
    ensures
        r@ == at_leaf(p@, s@),
{
    let x = var_x();
    let ghost (xv0, sv0) = (x@, s@);
    let sub = Substitution { pairs: vec![(Var::Named(String::from_str("X")), s)] };
    proof {
        reveal_strlit("X");
        assert("X"@ =~= seq!['X']);
        let sq = seq![(VarV::Named(seq!['X']), sv0)];
        assert(bindings_view(sub.pairs@) =~= sq);
        assert(sq.drop_last() =~= Seq::<(VarV, TermV)>::empty());
        assert(pairs_map(sq) == pairs_map(sq.drop_last()).insert(sq.last().0, sq.last().1));
        assert(pairs_map(sq) =~= single(VarV::Named(seq!['X']), sv0));
    }
    sub.apply(p)
}

/// The address of premise `v` of link `i`.
fn step_addr_exec(links: &Vec<LinkKind>, i: usize, v: VId, p: Term) -> (r: Term)
    requires
        i < links.len(),
    ensures
        r@ == step_addr(links@, i as int, v, p@),
{
    match links[i] {
        LinkKind::Par { left, .. } | LinkKind::EPar { left, .. } | LinkKind::Tensor { left, .. } => {
            if left == v {
                at_leaf_exec(&p, path_left(var_x()))
            } else {
                at_leaf_exec(&p, path_right(var_x()))
            }
        },
        LinkKind::ETensor { left, .. } => {
            let n = count_etensors(links, i);
            #[verifier::truncate]
            let idx = n as u32;
            let y = box_var(idx);
            if left == v {
                at_leaf_exec(&p, bullet_box_left(var_x(), y))
            } else {
                at_leaf_exec(&p, bullet_box_right(var_x(), y))
            }
        },
        LinkKind::Dereliction { .. } => bullet_d(p),
        LinkKind::Contraction { left, .. } => {
            if left == v {
                bullet_left(p, var_xc())
            } else {
                bullet_right(p, var_xc())
            }
        },
        _ => p,
    }
}

fn walk_up(links: &Vec<LinkKind>, v: VId, fuel: usize) -> (r: Option<(VId, Term)>)
    ensures
        match r {
            None => walk_up_spec(links@, v, fuel as nat) is None,
            Some((c, t)) => walk_up_spec(links@, v, fuel as nat) == Some((c, t@)),
        },
    decreases fuel,
{
    match find_consumer(links, v) {
        None => {
            if is_produced(links, v) {
                Some((v, var_x()))
            } else {
                None
            }
        },
        Some(i) => {
            if fuel == 0 {
                return None;
            }
            proof {
                let k = choose|k: int| first_consumer(links@, v, k);
                if k < i {
                    assert(!consumes(links@[k], v));
                }
                if i < k {
                    assert(!consumes(links@[i as int], v));
                }
                assert(k == i);
            }
            match link_out_exec(links[i]) {
                None => None,
                Some(o) => match walk_up(links, o, fuel - 1) {
                    None => None,
                    Some((c, p)) => Some((c, step_addr_exec(links, i, v, p))),
                },
            }
        },
    }
}

/// `pAddr(v)` (§74.5): the conclusion above `v` and the path down to `v`.
/// Below a `⊗`, `⅋` or `⋊` the path continues with `1 ·` (left premise) or
/// `r ·` (right), the steps nearer the conclusion outermost (for
/// `ax(1,2), ax(5,6), ⅋(1,2→3), ⅋(3,5→7)` vertex 2 has `7` and `1 · (r · X)`);
/// below the `k`-th `⊛` it continues with `(1 · X) • Y<k>` or
/// `(r · X) • Y<k>`. A dereliction premise's path is its conclusion's
/// followed by `• d`, a contraction premise's by `• (1 · X_c)` or
/// `• (r · X_c)`, these suffixes outermost (see [`step_addr`]).
pub fn path_addr(ps: &ProofStructure, target: VId) -> (r: Option<(VId, Term)>)
    ensures
        match r {
            None => path_addr_spec(ps.links@, target) is None,
            Some((c, t)) => path_addr_spec(ps.links@, target) == Some((c, t@)),
        },
{
    walk_up(&ps.links, target, ps.links.len())
}

/// `addr(v) = c(pAddr(v))`.
pub fn addr(ps: &ProofStructure, v: VId) -> (r: Option<Term>)
    ensures
        match r {
            None => addr_spec(ps.links@, v) is None,
            Some(t) => addr_spec(ps.links@, v) == Some(t@),
        },
{
    match path_addr(ps, v) {
        Some((c, p)) => Some(vertex_ray(c, Polarity::Neutral, p)),
        None => None,
    }
}

fn vertex_ray(v: VId, pol: Polarity, t: Term) -> (r: Term)
    ensures
        r@ == vray(v, pol, t@),
{
    let args = vec![t];
    proof {
        lemma_views_of(args@);
        assert(views_of(args@) =~= seq![args@[0]@]);
    }
    Term::App(Sym { name: v.name(), pol }, args)
}

// ─────────────────────────────────────────────────────────────────────────
// Black-hole stars and Φ^comp (§74.7, §74.9)
// ─────────────────────────────────────────────────────────────────────────

/// `c` is a premise of some cut.
pub open spec fn is_cut_vertex(links: Seq<LinkKind>, c: VId) -> bool {
    exists|i: int|
        0 <= i < links.len() && (#[trigger] links[i] matches LinkKind::Cut { left, right } && (
        left == c || right == c))
}

/// The address of `v`, or `v(X)` when it has none, as `(conclusion, path)`.
pub open spec fn addr_or_own(links: Seq<LinkKind>, v: VId) -> (VId, TermV) {
    match path_addr_spec(links, v) {
        Some(cp) => cp,
        None => (v, xv()),
    }
}

/// `μ(addr(v))`: the address, made positive when its conclusion is a premise
/// of a cut.
pub open spec fn ax_ray(links: Seq<LinkKind>, v: VId) -> TermV {
    let (c, p) = addr_or_own(links, v);
    vray(
        c,
        if is_cut_vertex(links, c) {
            Polarity::Pos
        } else {
            Polarity::Neutral
        },
        p,
    )
}

/// The ray `ω(X)` with the given polarity, or `-ω(f_bh(X))`.
pub open spec fn omega_pos() -> TermV {
    TermV::App(seq!['ω'], Polarity::Pos, seq![xv()])
}

pub open spec fn omega_neg() -> TermV {
    TermV::App(
        seq!['ω'],
        Polarity::Neg,
        seq![TermV::App(seq!['f', '_', 'b', 'h'], Polarity::Neutral, seq![xv()])],
    )
}

/// The black-hole star `[+a, +ω(X), -ω(f_bh(X))]` of an address `a`.
pub open spec fn black_hole(a: TermV) -> Seq<TermV> {
    seq![positive_head(a), omega_pos(), omega_neg()]
}

/// `Φ^ax` stars of the axiom links among `part`, addresses taken in `links`.
pub open spec fn ax_stars(links: Seq<LinkKind>, part: Seq<LinkKind>) -> Seq<Seq<TermV>>
    decreases part.len(),
{
    if part.len() == 0 {
        Seq::empty()
    } else {
        let rest = ax_stars(links, part.drop_last());
        match part.last() {
            LinkKind::Ax { left, right } => rest.push(seq![ax_ray(links, left), ax_ray(links, right)]),
            _ => rest,
        }
    }
}

/// Black-hole stars of the weakening links among `part`.
pub open spec fn bh_stars(links: Seq<LinkKind>, part: Seq<LinkKind>) -> Seq<Seq<TermV>>
    decreases part.len(),
{
    if part.len() == 0 {
        Seq::empty()
    } else {
        let rest = bh_stars(links, part.drop_last());
        match part.last() {
            LinkKind::Weakening { output } => {
                let (c, p) = addr_or_own(links, output);
                rest.push(black_hole(vray(c, Polarity::Neutral, p)))
            },
            _ => rest,
        }
    }
}

/// `Φ^ax`: the axiom stars, then the black-hole stars.
pub open spec fn phi_ax_spec(links: Seq<LinkKind>) -> Seq<Seq<TermV>> {
    ax_stars(links, links) + bh_stars(links, links)
}

/// `Φ^cut`: one star `[-l(X), -r(X)]` per cut, in order.
pub open spec fn phi_cut_spec(links: Seq<LinkKind>) -> Seq<Seq<TermV>>
    decreases links.len(),
{
    if links.len() == 0 {
        Seq::empty()
    } else {
        let rest = phi_cut_spec(links.drop_last());
        match links.last() {
            LinkKind::Cut { left, right } => rest.push(
                seq![vray(left, Polarity::Neg, xv()), vray(right, Polarity::Neg, xv())],
            ),
            _ => rest,
        }
    }
}

/// The black-hole star `[+a, +ω(X), -ω(f_bh(X))]` for a weakened vertex of
/// address `a` (§74.7): `a` is made positive (a variable stays as it is).
pub fn black_hole_star(addr_term: Term) -> (r: Star)
    ensures
        views_of(r@) == black_hole(addr_term@),
{
    proof {
        reveal_strlit("ω");
        reveal_strlit("f_bh");
        assert("ω"@ =~= seq!['ω']);
        assert("f_bh"@ =~= seq!['f', '_', 'b', 'h']);
    }
    let pos_addr = polarise_ray(&addr_term);
    let xs1 = vec![var_x()];
    proof {
        lemma_views_of(xs1@);
        assert(views_of(xs1@) =~= seq![xv()]);
    }
    let pos_omega = Term::App(Sym { name: String::from_str("ω"), pol: Polarity::Pos }, xs1);
    let xs2 = vec![var_x()];
    proof {
        lemma_views_of(xs2@);
        assert(views_of(xs2@) =~= seq![xv()]);
    }
    let fx = Term::App(Sym { name: String::from_str("f_bh"), pol: Polarity::Neutral }, xs2);
    let ghost fxv = fx@;
    let fxs = vec![fx];
    proof {
        lemma_views_of(fxs@);
        assert(views_of(fxs@) =~= seq![fxv]);
    }
    let neg_omega = Term::App(Sym { name: String::from_str("ω"), pol: Polarity::Neg }, fxs);
    let ghost (a, b, c) = (pos_addr@, pos_omega@, neg_omega@);
    let r = vec![pos_addr, pos_omega, neg_omega];
    proof {
        lemma_views_of(r@);
        assert(views_of(r@) =~= seq![a, b, c]);
    }
    r
}

fn has_cut_vertex(links: &Vec<LinkKind>, c: VId) -> (r: bool)
    ensures
        r == is_cut_vertex(links@, c),
{
    let mut i: usize = 0;
    while i < links.len()
        invariant
            i <= links.len(),
            forall|j: int|
                0 <= j < i ==> !(#[trigger] links@[j] matches LinkKind::Cut { left, right } && (left
                    == c || right == c)),
        decreases links.len() - i,
    {
        match links[i] {
            LinkKind::Cut { left, right } => {
                if left == c || right == c {
                    return true;
                }
            },
            _ => {},
        }
        i += 1;
    }
    false
}

fn addr_or_own_exec(ps: &ProofStructure, v: VId) -> (r: (VId, Term))
    ensures
        (r.0, r.1@) == addr_or_own(ps.links@, v),
{
    match path_addr(ps, v) {
        Some(cp) => cp,
        None => (v, var_x()),
    }
}

fn mu_ray(ps: &ProofStructure, v: VId) -> (r: Term)
    ensures
        r@ == ax_ray(ps.links@, v),
{
    let (c, p) = addr_or_own_exec(ps, v);
    if has_cut_vertex(&ps.links, c) {
        vertex_ray(c, Polarity::Pos, p)
    } else {
        vertex_ray(c, Polarity::Neutral, p)
    }
}

/// `Φ^ax` (§74.9): one star `[μ(addr(l)), μ(addr(r))]` per axiom `(l, r)`, in
/// order, then one black-hole star per weakening, in order; a vertex without
/// address is addressed `v(X)`.
pub fn phi_ax(ps: &ProofStructure) -> (r: Constellation)
    ensures
        cons_v(r@) == phi_ax_spec(ps.links@),
{
    let links = &ps.links;
    let mut out: Vec<Star> = Vec::new();
    let mut i: usize = 0;
    while i < links.len()
        invariant
            i <= links.len(),
            links == &ps.links,
            cons_v(out@) == ax_stars(links@, links@.take(i as int)),
        decreases links.len() - i,
    {
        proof {
            assert(links@.take(i + 1).drop_last() =~= links@.take(i as int));
        }
        match links[i] {
            LinkKind::Ax { left, right } => {
                let a = mu_ray(ps, left);
                let b = mu_ray(ps, right);
                let star = vec![a, b];
                proof {
                    lemma_star2(star);
                    lemma_cons_v_push(out@, star);
                }
                out.push(star);
            },
            _ => {},
        }
        i += 1;
    }
    assert(links@.take(links.len() as int) =~= links@);
    let ghost axs = cons_v(out@);
    let mut j: usize = 0;
    proof {
        assert(cons_v(out@) =~= axs + bh_stars(links@, links@.take(0)));
    }
    while j < links.len()
        invariant
            j <= links.len(),
            links == &ps.links,
            axs == ax_stars(links@, links@),
            cons_v(out@) == axs + bh_stars(links@, links@.take(j as int)),
        decreases links.len() - j,
    {
        proof {
            assert(links@.take(j + 1).drop_last() =~= links@.take(j as int));
        }
        match links[j] {
            LinkKind::Weakening { output } => {
                let (c, p) = addr_or_own_exec(ps, output);
                let star = black_hole_star(vertex_ray(c, Polarity::Neutral, p));
                proof {
                    lemma_cons_v_push(out@, star);
                    assert(cons_v(out@.push(star)) =~= axs + bh_stars(links@, links@.take(j + 1)));
                }
                out.push(star);
            },
            _ => {},
        }
        j += 1;
    }
    assert(links@.take(links.len() as int) =~= links@);
    out
}

/// `Φ^cut` (§74.9): one star `[-l(X), -r(X)]` per cut `(l, r)`, in order.
pub fn phi_cut(ps: &ProofStructure) -> (r: Constellation)
    ensures
        cons_v(r@) == phi_cut_spec(ps.links@),
{
    let links = &ps.links;
    let mut out: Vec<Star> = Vec::new();
    let mut i: usize = 0;
    while i < links.len()
        invariant
            i <= links.len(),
            cons_v(out@) == phi_cut_spec(links@.take(i as int)),
        decreases links.len() - i,
    {
        proof {
            assert(links@.take(i + 1).drop_last() =~= links@.take(i as int));
        }
        match links[i] {
            LinkKind::Cut { left, right } => {
                let a = vertex_ray(left, Polarity::Neg, var_x());
                let b = vertex_ray(right, Polarity::Neg, var_x());
                let star = vec![a, b];
                proof {
                    lemma_star2(star);
                    lemma_cons_v_push(out@, star);
                }
                out.push(star);
            },
            _ => {},
        }
        i += 1;
    }
    assert(links@.take(links.len() as int) =~= links@);
    out
}

/// `Φ^comp = Φ^ax ⊎ Φ^cut` (§74.9).
pub fn phi_comp(ps: &ProofStructure) -> (r: Constellation)
    ensures
        cons_v(r@) == phi_ax_spec(ps.links@) + phi_cut_spec(ps.links@),
{
    let a = phi_ax(ps);
    let b = phi_cut(ps);
    crate::mll::const_union(&a, &b)
}

/// The outcome of simulating cut elimination by abstract execution (§74.11):
/// the execution's result, the expected vehicle, and whether they agree.
pub struct CutElimResult {
    pub normal_form: Vec<Star>,
    pub expected: Constellation,
    pub theorem_holds: bool,
}

/// `Φ ≃ Φ'` (§67.7): the same stars up to renaming, each counted as often as
/// it occurs.
pub fn constellations_equiv(a: &[Star], b: &[Star]) -> (r: bool)
    ensures
        r == equiv_up_to_renaming(stars_v(a@), stars_v(b@)),
{
    crate::mll::constellations_equiv(a, b)
}

// ─────────────────────────────────────────────────────────────────────────
// Switchings (§75.3)
// ─────────────────────────────────────────────────────────────────────────

/// The choice made at one switchable link.
#[derive(Debug, Clone, Copy, PartialEq, Eq, Hash, Structural)]
pub enum SwitchChoice {
    /// `⅋`: keep the left premise.
    ParL,
    /// `⅋`: keep the right premise.
    ParR,
    /// `⊛` in `X` mode.
    ETensorX,
    /// `⊛` in `1` mode.
    ETensor1,
    /// `⋊`, left (cancelling).
    EParL,
    /// `⋊`, right.
    EParR,
}

/// A switching: the choice for each switchable link, by link index.
#[derive(Debug, Clone)]
pub struct Switching {
    pub choices: HashMap<usize, SwitchChoice>,
}

/// The choice recorded for link `idx`, if any.
pub open spec fn choice_in(m: Map<usize, SwitchChoice>, idx: usize) -> Option<SwitchChoice> {
    if m.contains_key(idx) {
        Some(m[idx])
    } else {
        None
    }
}

/// The map of a list of pairs: a later pair for an index overrides an
/// earlier one.
pub open spec fn pairs_to_map(s: Seq<(usize, SwitchChoice)>) -> Map<usize, SwitchChoice>
    decreases s.len(),
{
    if s.len() == 0 {
        Map::empty()
    } else {
        pairs_to_map(s.drop_last()).insert(s.last().0, s.last().1)
    }
}

impl Switching {
    /// The switching with the given choices; a later pair for an index
    /// overrides an earlier one.
    pub fn new(pairs: Vec<(usize, SwitchChoice)>) -> (r: Self)
        ensures
            r.choices@ == pairs_to_map(pairs@),
    {
        let mut m: HashMap<usize, SwitchChoice> = HashMap::new();
        let mut k: usize = 0;
        while k < pairs.len()
            invariant
                k <= pairs.len(),
                m@ == pairs_to_map(pairs@.take(k as int)),
            decreases pairs.len() - k,
        {
            proof {
                assert(pairs@.take(k + 1).drop_last() =~= pairs@.take(k as int));
            }
            let (i, c) = pairs[k];
            m.insert(i, c);
            k += 1;
        }
        assert(pairs@.take(pairs.len() as int) =~= pairs@);
        Switching { choices: m }
    }

    /// The choice for link `idx`, if it has one.
    pub fn get(&self, idx: usize) -> (r: Option<SwitchChoice>)
        ensures
            r == choice_in(self.choices@, idx),
    {
        match self.choices.get(&idx) {
            Some(c) => Some(*c),
            None => None,
        }
    }
}

/// The two choices of a switchable link: `⅋`, `⋊` and `⊛`.
pub open spec fn options(l: LinkKind) -> Option<(SwitchChoice, SwitchChoice)> {
    match l {
        LinkKind::Par { .. } => Some((SwitchChoice::ParL, SwitchChoice::ParR)),
        LinkKind::EPar { .. } => Some((SwitchChoice::EParL, SwitchChoice::EParR)),
        LinkKind::ETensor { .. } => Some((SwitchChoice::ETensorX, SwitchChoice::ETensor1)),
        _ => None,
    }
}

/// The switchable links, in order, with their index and two choices.
pub open spec fn switchables(links: Seq<LinkKind>) -> Seq<(usize, SwitchChoice, SwitchChoice)>
    decreases links.len(),
{
    if links.len() == 0 {
        Seq::empty()
    } else {
        let rest = switchables(links.drop_last());
        match options(links.last()) {
            Some((a, b)) => rest.push(((links.len() - 1) as usize, a, b)),
            None => rest,
        }
    }
}

/// Switching number `mask`: the `b`-th switchable link takes its first
/// choice exactly when bit `b` of `mask` is clear.
pub open spec fn switching_pairs(links: Seq<LinkKind>, mask: nat) -> Seq<(usize, SwitchChoice)> {
    let sl = switchables(links);
    let bits = switching_choices(mask, sl.len());
    Seq::new(
        sl.len(),
        |b: int|
            (sl[b].0, if bits[b] {
                sl[b].1
            } else {
                sl[b].2
            }),
    )
}

fn options_exec(l: LinkKind) -> (r: Option<(SwitchChoice, SwitchChoice)>)
    ensures
        r == options(l),
{
    match l {
        LinkKind::Par { .. } => Some((SwitchChoice::ParL, SwitchChoice::ParR)),
        LinkKind::EPar { .. } => Some((SwitchChoice::EParL, SwitchChoice::EParR)),
        LinkKind::ETensor { .. } => Some((SwitchChoice::ETensorX, SwitchChoice::ETensor1)),
        _ => None,
    }
}

fn switchable_links(links: &Vec<LinkKind>) -> (r: Vec<(usize, SwitchChoice, SwitchChoice)>)
    ensures
        r@ == switchables(links@),
{
    let mut r: Vec<(usize, SwitchChoice, SwitchChoice)> = Vec::new();
    let mut i: usize = 0;
    while i < links.len()
        invariant
            i <= links.len(),
            r@ == switchables(links@.take(i as int)),
        decreases links.len() - i,
    {
        proof {
            assert(links@.take(i + 1).drop_last() =~= links@.take(i as int));
        }
        match options_exec(links[i]) {
            Some((a, b)) => {
                r.push((i, a, b));
            },
            None => {},
        }
        i += 1;
    }
    assert(links@.take(links.len() as int) =~= links@);
    r
}

/// All `2^k` switchings of a structure with `k` switchable links, switching
/// number `m` giving the `b`-th switchable link its first choice (`⅋_L`,
/// `⋊_L`, `⊛_X`) exactly when bit `b` of `m` is clear.
pub fn all_switchings(ps: &ProofStructure) -> (r: Vec<Switching>)
    requires
        pow2(switchables(ps.links@).len()) <= usize::MAX,
    ensures
        r.len() == pow2(switchables(ps.links@).len()),
        forall|m: int|
            0 <= m < r.len() ==> (#[trigger] r@[m]).choices@ == pairs_to_map(switching_pairs(ps.links@, m as nat)),
{
    let sl = switchable_links(&ps.links);
    let k = sl.len();
    let mut total: usize = 1;
    let mut j: usize = 0;
    proof {
        lemma2_to64();
    }
    while j < k
        invariant
            j <= k,
            k == sl.len(),
            total == pow2(j as nat),
            pow2(k as nat) <= usize::MAX,
        decreases k - j,
    {
        proof {
            lemma_pow2_unfold((j + 1) as nat);
            if j + 1 < k {
                lemma_pow2_strictly_increases((j + 1) as nat, k as nat);
            }
        }
        total = total * 2;
        j += 1;
    }
    let mut out: Vec<Switching> = Vec::new();
    let mut m: usize = 0;
    while m < total
        invariant
            m <= total,
            sl@ == switchables(ps.links@),
            k == sl.len(),
            total == pow2(k as nat),
            out.len() == m,
            forall|q: int|
                0 <= q < m ==> (#[trigger] out@[q]).choices@ == pairs_to_map(switching_pairs(ps.links@, q as nat)),
        decreases total - m,
    {
        let bits = choices_of(m, k);
        let mut pairs: Vec<(usize, SwitchChoice)> = Vec::new();
        let mut b: usize = 0;
        while b < k
            invariant
                b <= k,
                k == sl.len(),
                bits@ == switching_choices(m as nat, k as nat),
                pairs.len() == b,
                forall|t: int|
                    0 <= t < b ==> #[trigger] pairs@[t] == (sl@[t].0, if bits@[t] {
                        sl@[t].1
                    } else {
                        sl@[t].2
                    }),
            decreases k - b,
        {
            let (idx, a, c) = sl[b];
            if bits[b] {
                pairs.push((idx, a));
            } else {
                pairs.push((idx, c));
            }
            b += 1;
        }
        assert(pairs@ =~= switching_pairs(ps.links@, m as nat));
        out.push(Switching::new(pairs));
        m += 1;
    }
    out
}

proof fn lemma_switchables(links: Seq<LinkKind>)
    requires
        links.len() <= usize::MAX,
    ensures
        forall|b: int|
            0 <= b < switchables(links).len() ==> (#[trigger] switchables(links)[b]).0 < links.len()
                && options(links[switchables(links)[b].0 as int]) == Some(
                (switchables(links)[b].1, switchables(links)[b].2),
            ),
        forall|p: int, q: int|
            0 <= p < q < switchables(links).len() ==> (#[trigger] switchables(links)[p]).0
                < (#[trigger] switchables(links)[q]).0,
        forall|i: int|
            0 <= i < links.len() && #[trigger] options(links[i]) is Some ==> exists|b: int|
                0 <= b < switchables(links).len() && switchables(links)[b].0 == i,
    decreases links.len(),
{
    if links.len() > 0 {
        let init = links.drop_last();
        lemma_switchables(init);
        let rest = switchables(init);
        let sl = switchables(links);
        assert forall|b: int| 0 <= b < rest.len() implies links[rest[b].0 as int] == init[rest[b].0 as int] by {}
        assert forall|i: int| 0 <= i < links.len() && #[trigger] options(links[i]) is Some implies exists|b: int|
            0 <= b < sl.len() && sl[b].0 == i by {
            if i < links.len() - 1 {
                assert(init[i] == links[i]);
                let b = choose|b: int| 0 <= b < rest.len() && rest[b].0 == i;
                assert(sl[b] == rest[b]);
            } else {
                assert(links.last() == links[i]);
                assert(sl == rest.push(((links.len() - 1) as usize, options(links[i]).unwrap().0, options(links[i]).unwrap().1)));
                assert(sl[rest.len() as int].0 == i);
            }
        }
    }
}

proof fn lemma_pairs_to_map_distinct(s: Seq<(usize, SwitchChoice)>)
    requires
        forall|p: int, q: int| 0 <= p < q < s.len() ==> (#[trigger] s[p]).0 != (#[trigger] s[q]).0,
    ensures
        forall|b: int| 0 <= b < s.len() ==> #[trigger] choice_in(pairs_to_map(s), s[b].0) == Some(s[b].1),
        forall|i: usize| #[trigger] pairs_to_map(s).contains_key(i) ==> exists|b: int| 0 <= b < s.len() && s[b].0 == i,
    decreases s.len(),
{
    if s.len() > 0 {
        let init = s.drop_last();
        lemma_pairs_to_map_distinct(init);
        assert forall|b: int| 0 <= b < s.len() implies #[trigger] choice_in(pairs_to_map(s), s[b].0) == Some(s[b].1) by {
            assert(pairs_to_map(s) == pairs_to_map(init).insert(s.last().0, s.last().1));
            if b < s.len() - 1 {
                assert(init[b] == s[b]);
                assert(s[b].0 != s[s.len() - 1].0);
                assert(choice_in(pairs_to_map(init), init[b].0) == Some(init[b].1));
            }
        }
        assert forall|i: usize| #[trigger] pairs_to_map(s).contains_key(i) implies exists|b: int| 0 <= b < s.len() && s[b].0 == i by {
            if i != s.last().0 {
                let b = choose|b: int| 0 <= b < init.len() && init[b].0 == i;
                assert(s[b] == init[b]);
            } else {
                assert(s[s.len() - 1].0 == i);
            }
        }
    }
}

proof fn lemma_masks_differ(m1: nat, m2: nat, k: nat)
    requires
        m1 != m2,
        m1 < pow2(k),
        m2 < pow2(k),
    ensures
        exists|b: nat| b < k && #[trigger] nth_bit(m1, b) != nth_bit(m2, b),
    decreases k,
{
    if k == 0 {
        vstd::arithmetic::power2::lemma2_to64();
    } else {
        lemma_pow2_unfold(k);
        if m1 % 2 != m2 % 2 {
            assert(nth_bit(m1, 0) != nth_bit(m2, 0));
        } else {
            assert(m1 / 2 != m2 / 2);
            lemma_masks_differ(m1 / 2, m2 / 2, (k - 1) as nat);
            let b = choose|b: nat| b < k - 1 && #[trigger] nth_bit(m1 / 2, b) != nth_bit(m2 / 2, b);
            assert(nth_bit(m1, b + 1) == nth_bit(m1 / 2, b));
            assert(nth_bit(m2, b + 1) == nth_bit(m2 / 2, b));
        }
    }
}

/// The switchings of `all_switchings` give each switchable link (and only
/// those) one of its two choices, and any two of them differ.
pub proof fn lemma_switchings_shape(links: Seq<LinkKind>, m1: nat, m2: nat)
    requires
        links.len() <= usize::MAX,
        m1 < pow2(switchables(links).len()),
        m2 < pow2(switchables(links).len()),
    ensures
        forall|i: usize|
            #[trigger] pairs_to_map(switching_pairs(links, m1)).contains_key(i) <==> (i < links.len()
                && options(links[i as int]) is Some),
        forall|i: usize|
            i < links.len() && options(links[i as int]) is Some ==> {
                let (a, b) = options(links[i as int]).unwrap();
                #[trigger] choice_in(pairs_to_map(switching_pairs(links, m1)), i) == Some(a) || choice_in(
                    pairs_to_map(switching_pairs(links, m1)),
                    i,
                ) == Some(b)
            },
        m1 != m2 ==> pairs_to_map(switching_pairs(links, m1)) != pairs_to_map(switching_pairs(links, m2)),
{
    let sl = switchables(links);
    lemma_switchables(links);
    let s1 = switching_pairs(links, m1);
    let s2 = switching_pairs(links, m2);
    assert forall|p: int, q: int| 0 <= p < q < s1.len() implies (#[trigger] s1[p]).0 != (#[trigger] s1[q]).0 by {
        assert(sl[p].0 < sl[q].0);
    }
    assert forall|p: int, q: int| 0 <= p < q < s2.len() implies (#[trigger] s2[p]).0 != (#[trigger] s2[q]).0 by {
        assert(sl[p].0 < sl[q].0);
    }
    lemma_pairs_to_map_distinct(s1);
    lemma_pairs_to_map_distinct(s2);
    assert forall|i: usize|
        #[trigger] pairs_to_map(s1).contains_key(i) <==> (i < links.len() && options(links[i as int]) is Some) by {
        if pairs_to_map(s1).contains_key(i) {
            let b = choose|b: int| 0 <= b < s1.len() && s1[b].0 == i;
            assert(sl[b].0 == i);
        }
        if i < links.len() && options(links[i as int]) is Some {
            let b = choose|b: int| 0 <= b < sl.len() && sl[b].0 == i as int;
            assert(choice_in(pairs_to_map(s1), s1[b].0) == Some(s1[b].1));
        }
    }
    assert forall|i: usize| i < links.len() && options(links[i as int]) is Some implies {
        let (a, b) = options(links[i as int]).unwrap();
        #[trigger] choice_in(pairs_to_map(s1), i) == Some(a) || choice_in(pairs_to_map(s1), i) == Some(b)
    } by {
        let b = choose|b: int| 0 <= b < sl.len() && sl[b].0 == i as int;
        assert(choice_in(pairs_to_map(s1), s1[b].0) == Some(s1[b].1));
    }
    if m1 != m2 {
        lemma_masks_differ(m1, m2, sl.len());
        let b = choose|b: nat| b < sl.len() && #[trigger] nth_bit(m1, b) != nth_bit(m2, b);
        let bi = b as int;
        assert(choice_in(pairs_to_map(s1), s1[bi].0) == Some(s1[bi].1));
        assert(choice_in(pairs_to_map(s2), s2[bi].0) == Some(s2[bi].1));
        assert(s1[bi].0 == s2[bi].0);
        assert(switching_choices(m1, sl.len())[bi] != switching_choices(m2, sl.len())[bi]);
        assert(s1[bi].1 != s2[bi].1);
    }
}

/// Girard's verdict on one switching (§75.5, §75.8).
#[derive(Debug, Clone, Copy, PartialEq, Eq, Structural)]
pub enum SwitchResult {
    /// A right `⋊` switching gave the root star of the linear conclusions.
    RootStarCorrect,
    /// A left `⋊` switching cancels (no cut cycle).
    EParLCancelled,
    /// A left `⋊` switching meets a cut cycle.
    EParLCyclic,
    /// A right `⋊` switching gave some other result.
    RootStarWrong,
}

// ─────────────────────────────────────────────────────────────────────────
// Conclusions (§75.5)
// ─────────────────────────────────────────────────────────────────────────

/// `v` is the conclusion of a weakening.
pub open spec fn weakened(links: Seq<LinkKind>, v: VId) -> bool {
    exists|i: int|
        0 <= i < links.len() && (#[trigger] links[i] matches LinkKind::Weakening { output } && output
            == v)
}

/// A free conclusion: produced by some link, premise of none (cuts included).
pub open spec fn free_conclusion(links: Seq<LinkKind>, v: VId) -> bool {
    produced(links, v) && !consumed(links, v) && !is_cut_vertex(links, v)
}

/// A linear conclusion: a free conclusion that no weakening produces.
pub open spec fn linear_conclusion(links: Seq<LinkKind>, v: VId) -> bool {
    free_conclusion(links, v) && !weakened(links, v)
}

/// Strictly increasing by vertex number.
pub open spec fn sorted_ids(s: Seq<VId>) -> bool {
    forall|i: int, j: int| 0 <= i < j < s.len() ==> (#[trigger] s[i]).0 < (#[trigger] s[j]).0
}

/// Insert into a strictly increasing list, keeping it so.
fn insert_sorted(s: &mut Vec<VId>, x: VId)
    requires
        sorted_ids(old(s)@),
    ensures
        sorted_ids(final(s)@),
        forall|y: VId| final(s)@.contains(y) <==> (old(s)@.contains(y) || y == x),
{
    let mut i: usize = 0;
    while i < s.len() && s[i].0 < x.0
        invariant
            i <= s.len(),
            s@ == old(s)@,
            forall|k: int| 0 <= k < i ==> (#[trigger] s@[k]).0 < x.0,
        decreases s.len() - i,
    {
        i += 1;
    }
    if i < s.len() && s[i].0 == x.0 {
        assert(s@[i as int] == x);
        assert(s@.contains(x));
        return;
    }
    let ghost before = s@;
    s.insert(i, x);
    assert forall|y: VId| #[trigger] s@.contains(y) <==> (old(s)@.contains(y) || y == x) by {
        if s@.contains(y) {
            let k = choose|k: int| 0 <= k < s@.len() && s@[k] == y;
            if k < i {
                assert(before[k] == y);
            } else if k > i {
                assert(before[k - 1] == y);
            }
        }
        if before.contains(y) {
            let k = choose|k: int| 0 <= k < before.len() && before[k] == y;
            if k < i {
                assert(s@[k] == y);
            } else {
                assert(s@[k + 1] == y);
            }
        }
        if y == x {
            assert(s@[i as int] == y);
        }
    }
}

fn is_weakened(links: &Vec<LinkKind>, v: VId) -> (r: bool)
    ensures
        r == weakened(links@, v),
{
    let mut i: usize = 0;
    while i < links.len()
        invariant
            i <= links.len(),
            forall|j: int|
                0 <= j < i ==> !(#[trigger] links@[j] matches LinkKind::Weakening { output } && output
                    == v),
        decreases links.len() - i,
    {
        match links[i] {
            LinkKind::Weakening { output } => {
                if output == v {
                    return true;
                }
            },
            _ => {},
        }
        i += 1;
    }
    false
}

fn is_free_conclusion(links: &Vec<LinkKind>, v: VId) -> (r: bool)
    ensures
        r == free_conclusion(links@, v),
{
    is_produced(links, v) && find_consumer(links, v).is_none() && !has_cut_vertex(links, v)
}

/// The free conclusions (`linear` false) or the linear conclusions
/// (`linear` true), in increasing order without repetition.
fn conclusion_list(links: &Vec<LinkKind>, linear: bool) -> (r: Vec<VId>)
    ensures
        sorted_ids(r@),
        forall|v: VId| r@.contains(v) <==> (free_conclusion(links@, v) && (linear ==> !weakened(links@, v))),
{
    let mut out: Vec<VId> = Vec::new();
    let mut i: usize = 0;
    while i < links.len()
        invariant
            i <= links.len(),
            sorted_ids(out@),
            forall|v: VId| out@.contains(v) ==> (free_conclusion(links@, v) && (linear ==> !weakened(links@, v))),
            forall|v: VId| #![trigger free_conclusion(links@, v)]
                (free_conclusion(links@, v) && (linear ==> !weakened(links@, v)) && exists|k: int|
                    0 <= k < i && produces(#[trigger] links@[k], v)) ==> out@.contains(v),
        decreases links.len() - i,
    {
        let l = links[i];
        let (a, b) = match l {
            LinkKind::Ax { left, right } => (Some(left), Some(right)),
            _ => (link_out_exec(l), None),
        };
        match a {
            Some(x) => {
                if is_free_conclusion(links, x) && (!linear || !is_weakened(links, x)) {
                    insert_sorted(&mut out, x);
                }
            },
            None => {},
        }
        match b {
            Some(x) => {
                if is_free_conclusion(links, x) && (!linear || !is_weakened(links, x)) {
                    insert_sorted(&mut out, x);
                }
            },
            None => {},
        }
        proof {
            assert forall|v: VId| #![trigger free_conclusion(links@, v)]
                (free_conclusion(links@, v) && (linear ==> !weakened(links@, v)) && exists|k: int|
                    0 <= k < i + 1 && produces(#[trigger] links@[k], v)) implies out@.contains(v) by {
                let k = choose|k: int| 0 <= k < i + 1 && produces(#[trigger] links@[k], v);
                if k < i {
                    assert(exists|k2: int| 0 <= k2 < i && produces(#[trigger] links@[k2], v));
                }
            }
        }
        i += 1;
    }
    out
}

/// The linear conclusions (§75.5), in increasing order without repetition:
/// vertices produced by a link, premise of no link or cut, and produced by
/// no weakening.
pub fn linear_conclusions(ps: &ProofStructure) -> (r: Vec<VId>)
    ensures
        sorted_ids(r@),
        forall|v: VId| r@.contains(v) <==> linear_conclusion(ps.links@, v),
{
    conclusion_list(&ps.links, true)
}

// ─────────────────────────────────────────────────────────────────────────
// Cut cycles through `⋊` (§75.8)
// ─────────────────────────────────────────────────────────────────────────

/// A vertex as a vertex of the cut graph.
pub open spec fn gv(v: VId) -> crate::mll::VId {
    crate::mll::VId(v.0)
}

/// The cut graph: one edge per cut, in order.
pub open spec fn cut_graph(links: Seq<LinkKind>) -> Seq<(crate::mll::VId, crate::mll::VId)>
    decreases links.len(),
{
    if links.len() == 0 {
        Seq::empty()
    } else {
        let rest = cut_graph(links.drop_last());
        match links.last() {
            LinkKind::Cut { left, right } => rest.push((gv(left), gv(right))),
            _ => rest,
        }
    }
}

/// Link `i` is a `⋊` whose conclusion is joined to its left premise through
/// cuts: within as many cut edges as there are cuts, that is, anywhere in the
/// left premise's component of the cut graph.
pub open spec fn epar_cycle_at(links: Seq<LinkKind>, i: int) -> bool {
    links[i] matches LinkKind::EPar { left, output, .. } && within(
        cut_graph(links),
        gv(left),
        cut_graph(links).len(),
    ).contains(gv(output))
}

fn cut_edges(links: &Vec<LinkKind>) -> (r: Vec<(crate::mll::VId, crate::mll::VId)>)
    ensures
        r@ == cut_graph(links@),
{
    let mut r: Vec<(crate::mll::VId, crate::mll::VId)> = Vec::new();
    let mut i: usize = 0;
    while i < links.len()
        invariant
            i <= links.len(),
            r@ == cut_graph(links@.take(i as int)),
        decreases links.len() - i,
    {
        proof {
            assert(links@.take(i + 1).drop_last() =~= links@.take(i as int));
        }
        match links[i] {
            LinkKind::Cut { left, right } => {
                r.push((crate::mll::VId(left.0), crate::mll::VId(right.0)));
            },
            _ => {},
        }
        i += 1;
    }
    assert(links@.take(links.len() as int) =~= links@);
    r
}

/// Whether some `⋊` link's conclusion can be reached from its left premise
/// through cuts (the cyclic situation of §75.8: the structure is incorrect).
pub fn has_epar_cut_cycle(ps: &ProofStructure) -> (r: bool)
    ensures
        r == exists|i: int| 0 <= i < ps.links@.len() && #[trigger] epar_cycle_at(ps.links@, i),
{
    let links = &ps.links;
    let e = cut_edges(links);
    let m = e.len();
    let mut i: usize = 0;
    while i < links.len()
        invariant
            i <= links.len(),
            links == &ps.links,
            e@ == cut_graph(links@),
            m == e.len(),
            forall|j: int| 0 <= j < i ==> !#[trigger] epar_cycle_at(links@, j),
        decreases links.len() - i,
    {
        match links[i] {
            LinkKind::EPar { left, output, .. } => {
                let start = crate::mll::VId(left.0);
                let mut reached: Vec<crate::mll::VId> = vec![start];
                let mut k: usize = 0;
                assert(reached@.to_set() =~= within(e@, start, 0));
                while k < m
                    invariant
                        k <= m,
                        m == e.len(),
                        reached@.to_set() == within(e@, start, k as nat),
                    decreases m - k,
                {
                    reached = widen(&e, start, &reached, Ghost(k as nat));
                    k += 1;
                }
                if vid_in(&reached, crate::mll::VId(output.0)) {
                    assert(reached@.to_set().contains(crate::mll::VId(output.0)));
                    assert(epar_cycle_at(links@, i as int));
                    return true;
                }
                assert(!reached@.to_set().contains(crate::mll::VId(output.0)));
            },
            _ => {},
        }
        i += 1;
    }
    false
}

// ─────────────────────────────────────────────────────────────────────────
// Test constellations Φ^φ (§75.4)
// ─────────────────────────────────────────────────────────────────────────

/// The colour symbol `@c` of a conclusion `c`.
pub open spec fn colour_name(c: VId) -> Seq<char> {
    seq!['@'] + vname(c)
}

/// `-@c(c(p))`: an address wrapped in the colour of its conclusion, negated.
pub open spec fn coloured_neg(c: VId, p: TermV) -> TermV {
    TermV::App(colour_name(c), Polarity::Neg, seq![vray(c, Polarity::Neutral, p)])
}

/// `v` is the premise of a dereliction.
pub open spec fn d_input(links: Seq<LinkKind>, v: VId) -> bool {
    exists|i: int|
        0 <= i < links.len() && (#[trigger] links[i] matches LinkKind::Dereliction { input, .. }
            && input == v)
}

pub open spec fn yv() -> TermV {
    tvar(seq!['Y'])
}

pub open spec fn xpv() -> TermV {
    tvar(seq!['X', '\''])
}

pub open spec fn ypv() -> TermV {
    tvar(seq!['Y', '\''])
}

/// The ray `∞(X)` with the given polarity.
pub open spec fn inf_ray(p: Polarity) -> TermV {
    TermV::App(seq!['∞'], p, seq![xv()])
}

/// The routing star `[-@c(c(p)), +v(X)]` of an axiom end `v` that is neither
/// a free conclusion nor the premise of a dereliction and has an address.
pub open spec fn route(links: Seq<LinkKind>, v: VId) -> Seq<Seq<TermV>> {
    if free_conclusion(links, v) || d_input(links, v) {
        Seq::empty()
    } else {
        match path_addr_spec(links, v) {
            Some((c, p)) => seq![seq![coloured_neg(c, p), vray(v, Polarity::Pos, xv())]],
            None => Seq::empty(),
        }
    }
}

/// Routing stars of the axiom links among `part`, left end then right end.
pub open spec fn routing_stars(links: Seq<LinkKind>, part: Seq<LinkKind>) -> Seq<Seq<TermV>>
    decreases part.len(),
{
    if part.len() == 0 {
        Seq::empty()
    } else {
        let rest = routing_stars(links, part.drop_last());
        match part.last() {
            LinkKind::Ax { left, right } => rest + route(links, left) + route(links, right),
            _ => rest,
        }
    }
}

/// The conclusion stars `[-v(X), +@v(X)]`, one per listed conclusion.
pub open spec fn concl_stars(fc: Seq<VId>) -> Seq<Seq<TermV>> {
    Seq::new(
        fc.len(),
        |k: int|
            seq![
                vray(fc[k], Polarity::Neg, xv()),
                TermV::App(colour_name(fc[k]), Polarity::Pos, seq![xv()]),
            ],
    )
}

/// The choice at link `i`, or the given default.
pub open spec fn choice_or(sw: Map<usize, SwitchChoice>, i: int, d: SwitchChoice) -> SwitchChoice {
    match choice_in(sw, i as usize) {
        Some(c) => c,
        None => d,
    }
}

/// Every choice recorded for a switchable link is one of its own two.
pub open spec fn fits(links: Seq<LinkKind>, sw: Map<usize, SwitchChoice>) -> bool {
    forall|i: usize|
        i < links.len() ==> match #[trigger] choice_in(sw, i) {
            Some(c) => match links[i as int] {
                LinkKind::Par { .. } => c == SwitchChoice::ParL || c == SwitchChoice::ParR,
                LinkKind::ETensor { .. } => c == SwitchChoice::ETensorX || c == SwitchChoice::ETensor1,
                LinkKind::EPar { .. } => c == SwitchChoice::EParL || c == SwitchChoice::EParR,
                _ => true,
            },
            None => true,
        }
}

/// The test stars of link `i` under the switching (§75.4).
pub open spec fn link_test_stars(links: Seq<LinkKind>, sw: Map<usize, SwitchChoice>, i: int) -> Seq<Seq<TermV>> {
    let x = xv();
    match links[i] {
        LinkKind::Weakening { output } => {
            let (c, p) = addr_or_own(links, output);
            seq![black_hole(vray(c, Polarity::Neutral, p))]
        },
        LinkKind::Dereliction { input, output } => seq![
            seq![
                match path_addr_spec(links, input) {
                    Some((c, p)) => coloured_neg(c, p),
                    None => vray(input, Polarity::Neg, x),
                },
                vray(output, Polarity::Pos, bul(x, yv())),
            ],
        ],
        LinkKind::Contraction { left, right, output } => seq![
            seq![vray(left, Polarity::Neg, x), vray(right, Polarity::Neg, x), vray(output, Polarity::Pos, x)],
        ],
        LinkKind::Tensor { left, right, output } => seq![
            seq![vray(left, Polarity::Neg, x), vray(right, Polarity::Neg, x), vray(output, Polarity::Pos, x)],
        ],
        LinkKind::Par { left, right, output } => {
            let keep_left = choice_or(sw, i, SwitchChoice::ParL) == SwitchChoice::ParL;
            let kept = if keep_left {
                left
            } else {
                right
            };
            let cut_off = if keep_left {
                right
            } else {
                left
            };
            seq![
                seq![vray(kept, Polarity::Neg, x), vray(output, Polarity::Pos, x)],
                seq![vray(cut_off, Polarity::Neg, x)],
            ]
        },
        LinkKind::ETensor { left, right, output } => {
            let tail = if choice_or(sw, i, SwitchChoice::ETensorX) == SwitchChoice::ETensorX {
                x
            } else {
                cnst(seq!['1'])
            };
            seq![
                seq![
                    vray(left, Polarity::Neg, bul(x, tail)),
                    vray(right, Polarity::Neg, x),
                    vray(output, Polarity::Pos, x),
                ],
            ]
        },
        LinkKind::EPar { left, right, output } => {
            if choice_or(sw, i, SwitchChoice::EParR) == SwitchChoice::EParR {
                seq![
                    seq![vray(left, Polarity::Neg, bul(x, yv()))],
                    seq![vray(left, Polarity::Neg, bul(xpv(), ypv()))],
                    seq![vray(right, Polarity::Neg, x), vray(output, Polarity::Pos, x)],
                ]
            } else {
                seq![
                    seq![vray(left, Polarity::Neg, bul(x, yv())), vray(output, Polarity::Pos, bul(x, yv()))],
                    seq![vray(right, Polarity::Neg, x), inf_ray(Polarity::Neg), inf_ray(Polarity::Pos)],
                ]
            }
        },
        _ => Seq::empty(),
    }
}

/// The test stars of the first `n` links, in order.
pub open spec fn link_stars(links: Seq<LinkKind>, sw: Map<usize, SwitchChoice>, n: nat) -> Seq<Seq<TermV>>
    decreases n,
{
    if n == 0 {
        Seq::empty()
    } else {
        link_stars(links, sw, (n - 1) as nat) + link_test_stars(links, sw, n - 1)
    }
}

fn named_var(name: &str) -> (r: Term)
    ensures
        r@ == tvar(name@),
{
    var(name)
}

fn colour_string(c: VId) -> (r: String)
    ensures
        r@ == colour_name(c),
{
    proof {
        reveal_strlit("@");
        assert("@"@ =~= seq!['@']);
    }
    String::from_str("@").concat(c.name().as_str())
}

fn coloured_neg_exec(c: VId, p: Term) -> (r: Term)
    ensures
        r@ == coloured_neg(c, p@),
{
    let inner = vertex_ray(c, Polarity::Neutral, p);
    let ghost iv = inner@;
    let args = vec![inner];
    proof {
        lemma_views_of(args@);
        assert(views_of(args@) =~= seq![iv]);
    }
    Term::App(Sym { name: colour_string(c), pol: Polarity::Neg }, args)
}

fn is_d_input(links: &Vec<LinkKind>, v: VId) -> (r: bool)
    ensures
        r == d_input(links@, v),
{
    let mut i: usize = 0;
    while i < links.len()
        invariant
            i <= links.len(),
            forall|j: int|
                0 <= j < i ==> !(#[trigger] links@[j] matches LinkKind::Dereliction { input, .. }
                    && input == v),
        decreases links.len() - i,
    {
        match links[i] {
            LinkKind::Dereliction { input, .. } => {
                if input == v {
                    return true;
                }
            },
            _ => {},
        }
        i += 1;
    }
    false
}

fn push_star(out: &mut Vec<Star>, s: Star)
    ensures
        cons_v(final(out)@) == cons_v(old(out)@).push(views_of(s@)),
{
    proof {
        lemma_cons_v_push(out@, s);
    }
    out.push(s);
}

fn star1(a: Term) -> (r: Star)
    ensures
        views_of(r@) == seq![a@],
{
    let ghost av = a@;
    let r = vec![a];
    proof {
        lemma_views_of(r@);
        assert(views_of(r@) =~= seq![av]);
    }
    r
}

fn star2(a: Term, b: Term) -> (r: Star)
    ensures
        views_of(r@) == seq![a@, b@],
{
    let r = vec![a, b];
    proof {
        lemma_star2(r);
    }
    r
}

fn star3(a: Term, b: Term, c: Term) -> (r: Star)
    ensures
        views_of(r@) == seq![a@, b@, c@],
{
    let ghost (av, bv, cv) = (a@, b@, c@);
    let r = vec![a, b, c];
    proof {
        lemma_views_of(r@);
        assert(views_of(r@) =~= seq![av, bv, cv]);
    }
    r
}

fn route_exec(ps: &ProofStructure, v: VId, out: &mut Vec<Star>)
    ensures
        cons_v(final(out)@) == cons_v(old(out)@) + route(ps.links@, v),
{
    if is_free_conclusion(&ps.links, v) || is_d_input(&ps.links, v) {
        assert(cons_v(out@) =~= cons_v(out@) + Seq::<Seq<TermV>>::empty());
        return;
    }
    match path_addr(ps, v) {
        Some((c, p)) => {
            let a = coloured_neg_exec(c, p);
            let b = vertex_ray(v, Polarity::Pos, var_x());
            let ghost before = cons_v(out@);
            push_star(out, star2(a, b));
            assert(cons_v(out@) =~= before + route(ps.links@, v));
        },
        None => {
            assert(cons_v(out@) =~= cons_v(out@) + Seq::<Seq<TermV>>::empty());
        },
    }
}

fn link_test_exec(ps: &ProofStructure, sw: &Switching, i: usize, out: &mut Vec<Star>)
    requires
        i < ps.links.len(),
        fits(ps.links@, sw.choices@),
    ensures
        cons_v(final(out)@) == cons_v(old(out)@) + link_test_stars(ps.links@, sw.choices@, i as int),
{
    let ghost before = cons_v(out@);
    let ghost links = ps.links@;
    proof {
        reveal_strlit("Y");
        reveal_strlit("X'");
        reveal_strlit("Y'");
        reveal_strlit("1");
        reveal_strlit("∞");
        assert("Y"@ =~= seq!['Y']);
        assert("X'"@ =~= seq!['X', '\'']);
        assert("Y'"@ =~= seq!['Y', '\'']);
        assert("1"@ =~= seq!['1']);
        assert("∞"@ =~= seq!['∞']);
        assert(fits(links, sw.choices@));
        assert(match choice_in(sw.choices@, i) {
            Some(c) => match links[i as int] {
                LinkKind::Par { .. } => c == SwitchChoice::ParL || c == SwitchChoice::ParR,
                LinkKind::ETensor { .. } => c == SwitchChoice::ETensorX || c == SwitchChoice::ETensor1,
                LinkKind::EPar { .. } => c == SwitchChoice::EParL || c == SwitchChoice::EParR,
                _ => true,
            },
            None => true,
        });
    }
    match ps.links[i] {
        LinkKind::Ax { .. } | LinkKind::Cut { .. } => {
            assert(cons_v(out@) =~= before + link_test_stars(links, sw.choices@, i as int));
        },
        LinkKind::Weakening { output } => {
            let (c, p) = addr_or_own_exec(ps, output);
            let star = black_hole_star(vertex_ray(c, Polarity::Neutral, p));
            push_star(out, star);
            assert(cons_v(out@) =~= before + link_test_stars(links, sw.choices@, i as int));
        },
        LinkKind::Dereliction { input, output } => {
            let a = match path_addr(ps, input) {
                Some((c, p)) => coloured_neg_exec(c, p),
                None => vertex_ray(input, Polarity::Neg, var_x()),
            };
            assert(a@ == match path_addr_spec(links, input) {
                Some((c, p)) => coloured_neg(c, p),
                None => vray(input, Polarity::Neg, xv()),
            });
            let b = vertex_ray(output, Polarity::Pos, bullet(var_x(), named_var("Y")));
            assert(b@ == vray(output, Polarity::Pos, bul(xv(), yv())));
            assert(links[i as int] == LinkKind::Dereliction { input, output });
            assert(link_test_stars(links, sw.choices@, i as int) =~~= seq![seq![a@, b@]]);
            push_star(out, star2(a, b));
            assert(cons_v(out@) =~= before + link_test_stars(links, sw.choices@, i as int));
        },
        LinkKind::Contraction { left, right, output } | LinkKind::Tensor { left, right, output } => {
            let a = vertex_ray(left, Polarity::Neg, var_x());
            let b = vertex_ray(right, Polarity::Neg, var_x());
            let c = vertex_ray(output, Polarity::Pos, var_x());
            push_star(out, star3(a, b, c));
            assert(cons_v(out@) =~= before + link_test_stars(links, sw.choices@, i as int));
        },
        LinkKind::Par { left, right, output } => {
            let ch = match sw.get(i) {
                Some(c) => c,
                None => SwitchChoice::ParL,
            };
            let keep_left = ch == SwitchChoice::ParL;
            let kept = if keep_left { left } else { right };
            let cut_off = if keep_left { right } else { left };
            let a = vertex_ray(kept, Polarity::Neg, var_x());
            let b = vertex_ray(output, Polarity::Pos, var_x());
            push_star(out, star2(a, b));
            push_star(out, star1(vertex_ray(cut_off, Polarity::Neg, var_x())));
            assert(cons_v(out@) =~= before + link_test_stars(links, sw.choices@, i as int));
        },
        LinkKind::ETensor { left, right, output } => {
            let ch = match sw.get(i) {
                Some(c) => c,
                None => SwitchChoice::ETensorX,
            };
            let tail = if ch == SwitchChoice::ETensorX {
                var_x()
            } else {
                constant("1")
            };
            let a = vertex_ray(left, Polarity::Neg, bullet(var_x(), tail));
            let b = vertex_ray(right, Polarity::Neg, var_x());
            let c = vertex_ray(output, Polarity::Pos, var_x());
            push_star(out, star3(a, b, c));
            assert(cons_v(out@) =~= before + link_test_stars(links, sw.choices@, i as int));
        },
        LinkKind::EPar { left, right, output } => {
            let ch = match sw.get(i) {
                Some(c) => c,
                None => SwitchChoice::EParR,
            };
            if ch == SwitchChoice::EParR {
                push_star(out, star1(vertex_ray(left, Polarity::Neg, bullet(var_x(), named_var("Y")))));
                push_star(out, star1(vertex_ray(left, Polarity::Neg, bullet(named_var("X'"), named_var("Y'")))));
                let a = vertex_ray(right, Polarity::Neg, var_x());
                let b = vertex_ray(output, Polarity::Pos, var_x());
                push_star(out, star2(a, b));
            } else {
                let a = vertex_ray(left, Polarity::Neg, bullet(var_x(), named_var("Y")));
                let b = vertex_ray(output, Polarity::Pos, bullet(var_x(), named_var("Y")));
                push_star(out, star2(a, b));
                let xs1 = star1(var_x());
                let xs2 = star1(var_x());
                let neg_inf = Term::App(Sym { name: String::from_str("∞"), pol: Polarity::Neg }, xs1);
                let pos_inf = Term::App(Sym { name: String::from_str("∞"), pol: Polarity::Pos }, xs2);
                let w = vertex_ray(right, Polarity::Neg, var_x());
                push_star(out, star3(w, neg_inf, pos_inf));
            }
            assert(cons_v(out@) =~= before + link_test_stars(links, sw.choices@, i as int));
        },
    }
}

/// The test constellation `Φ^φ` of a switching (§75.4): `Φ^cut`; a routing
/// star `[-@c(c(p)), +v(X)]` for each axiom end `v` that is neither a free
/// conclusion nor the premise of a dereliction, `c(p)` its address; a star
/// `[-v(X), +@v(X)]` per free conclusion, in increasing order; then, link by
/// link, the test stars of §75.4 (black hole for a weakening, `[-@c(c(p)),
/// +v(X • Y)]` for a dereliction, the multiplicative star for a tensor or a
/// contraction, and the switched stars of `⅋`, `⊛` and `⋊`, whose defaults
/// are `⅋_L`, `⊛_X` and `⋊_R`).
pub fn phi_switched_2i(ps: &ProofStructure, sw: &Switching) -> (r: Constellation)
    requires
        fits(ps.links@, sw.choices@),
    ensures
        exists|fc: Seq<VId>|
            {
                &&& sorted_ids(fc)
                &&& forall|v: VId| fc.contains(v) <==> free_conclusion(ps.links@, v)
                &&& cons_v(r@) == phi_cut_spec(ps.links@) + routing_stars(ps.links@, ps.links@)
                    + concl_stars(fc) + link_stars(ps.links@, sw.choices@, ps.links@.len())
            },
{
    let links = &ps.links;
    let mut out = phi_cut(ps);
    let ghost cuts = cons_v(out@);
    let mut i: usize = 0;
    assert(cons_v(out@) =~= cuts + routing_stars(links@, links@.take(0)));
    while i < links.len()
        invariant
            i <= links.len(),
            links == &ps.links,
            cons_v(out@) == cuts + routing_stars(links@, links@.take(i as int)),
        decreases links.len() - i,
    {
        proof {
            assert(links@.take(i + 1).drop_last() =~= links@.take(i as int));
        }
        match links[i] {
            LinkKind::Ax { left, right } => {
                let ghost before = cons_v(out@);
                route_exec(ps, left, &mut out);
                route_exec(ps, right, &mut out);
                assert(cons_v(out@) =~= cuts + routing_stars(links@, links@.take(i + 1)));
            },
            _ => {},
        }
        i += 1;
    }
    assert(links@.take(links.len() as int) =~= links@);
    let ghost routed = cons_v(out@);
    let fc = conclusion_list(links, false);
    let mut k: usize = 0;
    assert(cons_v(out@) =~= routed + concl_stars(fc@.take(0)));
    while k < fc.len()
        invariant
            k <= fc.len(),
            cons_v(out@) == routed + concl_stars(fc@.take(k as int)),
        decreases fc.len() - k,
    {
        let v = fc[k];
        let a = vertex_ray(v, Polarity::Neg, var_x());
        let xs = star1(var_x());
        let b = Term::App(Sym { name: colour_string(v), pol: Polarity::Pos }, xs);
        push_star(&mut out, star2(a, b));
        k += 1;
        assert(cons_v(out@) =~= routed + concl_stars(fc@.take(k as int)));
    }
    assert(fc@.take(fc.len() as int) =~= fc@);
    let ghost concl = cons_v(out@);
    let mut j: usize = 0;
    assert(cons_v(out@) =~= concl + link_stars(links@, sw.choices@, 0));
    while j < links.len()
        invariant
            j <= links.len(),
            links == &ps.links,
            fits(ps.links@, sw.choices@),
            cons_v(out@) == concl + link_stars(links@, sw.choices@, j as nat),
        decreases links.len() - j,
    {
        let ghost before = cons_v(out@);
        link_test_exec(ps, sw, j, &mut out);
        assert(cons_v(out@) =~= concl + link_stars(links@, sw.choices@, (j + 1) as nat));
        j += 1;
    }
    out
}

} // verus!
