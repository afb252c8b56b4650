//! Top-down non-deterministic finite tree automata as constellations
//! (§57.7–§57.12).
//!
//! * a tree is encoded as a term: a leaf `x` becomes the variable `x`, a node
//!   `f(t₁, …, tₙ)` the term `f(t₁★, …, tₙ★)`; its star is `[+i(t★)]`;
//! * each initial state `q₀` gives `[-i(T), +ta(q₀, T)]`;
//! * rule number `r`, `q(f(x₁…xₙ)) → f(q₁(x₁)…qₙ(xₙ))`, gives for each child
//!   `i` the star `[-ta(q, f(X_r<r>_c0, …)), +ta(qᵢ, X_r<r>_c<i>)]`;
//! * each leaf state `q` gives `[-ta(q, X_leaf), accept]`, each terminal pair
//!   `(q, c)` gives `[-ta(q, c), accept]`.
//!
//! The automaton accepts a tree when it has a successful top-down run on it
//! from an initial state: at a node `f(t₁, …, tₙ)` in state `q` some rule
//! `q(f(x₁…xₙ)) → f(q₁(x₁)…qₙ(xₙ))` applies and every child `tᵢ` is accepted
//! in state `qᵢ`; a leaf is accepted in a leaf state, a constant `c` in a state
//! `q` with a terminal pair `(q, c)` or a rule for `c` without children. The
//! language of the formula automaton is thus the formulas that evaluate to
//! true.
use vstd::prelude::*;
use vstd::string::StringExecFns;
use crate::term::{lemma_views_of, lemma_views_of_ext, views_of, Polarity, Term, TermV, Var, VarV};
use crate::constellation::{cons_v, star_v, Constellation, Star};
use crate::polarised::{mk_app_str, split_symbol};
use crate::display::{digits, usize_text};
use crate::termkit::{app, args1, args2, konst, star2, sym_s, tconst, tsym, tvar, var};

verus! {

broadcast use vstd::std_specs::vec::group_vec_axioms;

/// A finite tree: a leaf (a variable) or a node `f(t₁, …, tₙ)`.
#[derive(Debug)]
pub enum Tree {
    Leaf(String),
    Node(String, Vec<Tree>),
}

/// The term encoding a tree.
pub open spec fn tree_term(t: Tree) -> TermV
    decreases t,
{
    match t {
        Tree::Leaf(n) => TermV::Var(VarV::Named(n@)),
        Tree::Node(f, cs) => TermV::App(split_symbol(f@).1, split_symbol(f@).0, trees_terms(cs@)),
    }
}

pub open spec fn trees_terms(s: Seq<Tree>) -> Seq<TermV>
    decreases s,
{
    if s.len() == 0 {
        Seq::empty()
    } else {
        trees_terms(s.drop_last()).push(tree_term(s.last()))
    }
}

proof fn lemma_trees_terms(s: Seq<Tree>)
    ensures
        trees_terms(s).len() == s.len(),
        forall|i: int| 0 <= i < s.len() ==> #[trigger] trees_terms(s)[i] == tree_term(s[i]),
    decreases s.len(),
{
    if s.len() > 0 {
        lemma_trees_terms(s.drop_last());
        assert forall|i: int| 0 <= i < s.len() implies #[trigger] trees_terms(s)[i] == tree_term(s[i]) by {
            if i < s.len() - 1 {
                assert(s.drop_last()[i] == s[i]);
            }
        }
    }
}

impl Tree {
    /// `t★`: leaves become variables, nodes applications.
    pub fn encode(&self) -> (r: Term)
        ensures
            r@ == tree_term(*self),
        decreases self,
    {
        match self {
            Tree::Leaf(name) => Term::Var(Var::Named(name.clone())),
            Tree::Node(f, children) => {
                let mut out: Vec<Term> = Vec::new();
                let mut i: usize = 0;
                #[verifier::loop_isolation(false)]
                while i < children.len()
                    invariant
                        i <= children.len(),
                        out.len() == i,
                        forall|k: int| 0 <= k < i ==> out[k]@ == tree_term(children@[k]),
                    decreases children.len() - i,
                {
                    proof {
                        assert(decreases_to!(children => children[i as int]));
                    }
                    out.push(children[i].encode());
                    i += 1;
                }
                proof {
                    lemma_views_of(out@);
                    lemma_trees_terms(children@);
                    assert(views_of(out@) =~= trees_terms(children@));
                }
                mk_app_str(f.as_str(), out)
            },
        }
    }

    /// The tree star `[+i(t★)]`.
    pub fn tree_star(&self) -> (r: Star)
        ensures
            star_v(r@) == seq![TermV::App(seq!['i'], Polarity::Pos, seq![tree_term(*self)])],
    {
        proof {
            reveal_strlit("i");
            assert("i"@ =~= seq!['i']);
        }
        args1(app("i", Polarity::Pos, args1(self.encode())))
    }
}

/// A rule `state(symbol(x₁…xₙ)) → symbol(successors[0](x₁)…)`.
#[derive(Debug)]
pub struct NftaRule {
    pub state: String,
    pub symbol: String,
    pub successors: Vec<String>,
}

/// A top-down tree automaton.
#[derive(Debug)]
pub struct Nfta {
    pub states: Vec<String>,
    pub initial: Vec<String>,
    pub rules: Vec<NftaRule>,
    pub leaf_states: Vec<String>,
    pub terminal_pairs: Vec<(String, String)>,
}

/// `±ta(q, t)`.
pub open spec fn ta(pol: Polarity, q: Seq<char>, t: TermV) -> TermV {
    TermV::App(seq!['t', 'a'], pol, seq![tsym(q), t])
}

/// The name `X_r<r>_c<i>` of the variable of child `i` of rule `r`.
pub open spec fn child_var_name(r: nat, i: nat) -> Seq<char> {
    seq!['X', '_', 'r'] + digits(r) + seq!['_', 'c'] + digits(i)
}

pub open spec fn child_vars(r: nat, n: nat) -> Seq<TermV> {
    Seq::new(n, |i: int| tvar(child_var_name(r, i as nat)))
}

pub open spec fn accept_t() -> TermV {
    tconst(seq!['a', 'c', 'c', 'e', 'p', 't'])
}

/// The stars of rule number `r`, one per child.
pub open spec fn rule_stars(rule: NftaRule, r: nat) -> Seq<Seq<TermV>> {
    let n = rule.successors@.len();
    let pattern = TermV::App(split_symbol(rule.symbol@).1, split_symbol(rule.symbol@).0, child_vars(r, n));
    Seq::new(
        n,
        |i: int|
            seq![
                ta(Polarity::Neg, rule.state@, pattern),
                ta(Polarity::Pos, rule.successors@[i]@, tvar(child_var_name(r, i as nat))),
            ],
    )
}

/// The stars of the rules from number `r` on, in order.
pub open spec fn all_rule_stars(rules: Seq<NftaRule>, r: nat) -> Seq<Seq<TermV>>
    decreases rules.len() - r,
{
    if r >= rules.len() {
        Seq::empty()
    } else {
        rule_stars(rules[r as int], r) + all_rule_stars(rules, r + 1)
    }
}

/// `T★`: initial stars, rule stars, leaf stars, terminal stars.
pub open spec fn machine_stars(a: Nfta) -> Seq<Seq<TermV>> {
    let inits = Seq::new(
        a.initial@.len(),
        |k: int|
            seq![
                TermV::App(seq!['i'], Polarity::Neg, seq![tvar(seq!['T'])]),
                ta(Polarity::Pos, a.initial@[k]@, tvar(seq!['T'])),
            ],
    );
    let leaves = Seq::new(
        a.leaf_states@.len(),
        |k: int| seq![ta(Polarity::Neg, a.leaf_states@[k]@, tvar(seq!['X', '_', 'l', 'e', 'a', 'f'])), accept_t()],
    );
    let terms = Seq::new(
        a.terminal_pairs@.len(),
        |k: int| seq![ta(Polarity::Neg, a.terminal_pairs@[k].0@, tsym(a.terminal_pairs@[k].1@)), accept_t()],
    );
    inits + all_rule_stars(a.rules@, 0) + leaves + terms
}

/// `t` is accepted from state `q`: a successful top-down run of the
/// automaton on `t` starting in `q`.
pub open spec fn run_ok(a: Nfta, q: Seq<char>, t: Tree) -> bool
    decreases t,
{
    match t {
        Tree::Leaf(_) => exists|k: int| 0 <= k < a.leaf_states@.len() && #[trigger] a.leaf_states@[k]@ == q,
        Tree::Node(f, cs) => {
            ||| (cs@.len() == 0 && exists|k: int|
                0 <= k < a.terminal_pairs@.len() && #[trigger] a.terminal_pairs@[k].0@ == q
                    && a.terminal_pairs@[k].1@ == f@)
            ||| exists|r: int|
                0 <= r < a.rules@.len() && #[trigger] a.rules@[r].state@ == q && a.rules@[r].symbol@ == f@
                    && a.rules@[r].successors@.len() == cs@.len() && children_ok(
                    a,
                    a.rules@[r].successors@,
                    cs@,
                )
        },
    }
}

/// Each tree of `cs` is accepted from the state at the same place in `qs`.
pub open spec fn children_ok(a: Nfta, qs: Seq<String>, cs: Seq<Tree>) -> bool
    decreases cs,
{
    if cs.len() == 0 {
        true
    } else {
        children_ok(a, qs.drop_last(), cs.drop_last()) && run_ok(a, qs[cs.len() - 1]@, cs.last())
    }
}

/// The automaton accepts `t`: it runs successfully from some initial state.
pub open spec fn nfta_accepts(a: Nfta, t: Tree) -> bool {
    exists|k: int| 0 <= k < a.initial@.len() && #[trigger] run_ok(a, a.initial@[k]@, t)
}

proof fn lemma_children_ok(a: Nfta, qs: Seq<String>, cs: Seq<Tree>)
    requires
        qs.len() >= cs.len(),
    ensures
        children_ok(a, qs, cs) <==> forall|i: int| 0 <= i < cs.len() ==> run_ok(a, qs[i]@, #[trigger] cs[i]),
    decreases cs.len(),
{
    if cs.len() > 0 {
        lemma_children_ok(a, qs.drop_last(), cs.drop_last());
        if children_ok(a, qs, cs) {
            assert forall|i: int| 0 <= i < cs.len() implies run_ok(a, qs[i]@, #[trigger] cs[i]) by {
                if i < cs.len() - 1 {
                    assert(cs.drop_last()[i] == cs[i]);
                    assert(qs.drop_last()[i] == qs[i]);
                }
            }
        }
        if forall|i: int| 0 <= i < cs.len() ==> run_ok(a, qs[i]@, #[trigger] cs[i]) {
            assert forall|i: int| 0 <= i < cs.drop_last().len() implies run_ok(a, qs.drop_last()[i]@, #[trigger] cs.drop_last()[i]) by {
                assert(cs.drop_last()[i] == cs[i]);
                assert(qs.drop_last()[i] == qs[i]);
                assert(run_ok(a, qs[i]@, cs[i]));
            }
            assert(run_ok(a, qs[cs.len() - 1]@, cs[cs.len() - 1]));
        }
    }
}

proof fn lemma_push_star(c: Seq<Vec<Term>>, s: Vec<Term>)
    ensures
        cons_v(c.push(s)) == cons_v(c).push(views_of(s@)),
{
    assert(cons_v(c.push(s)) =~= cons_v(c).push(views_of(s@)));
}

fn ta_exec(pol: Polarity, q: &String, t: Term) -> (r: Term)
    ensures
        r@ == ta(pol, q@, t@),
{
    proof {
        reveal_strlit("ta");
        assert("ta"@ =~= seq!['t', 'a']);
    }
    app("ta", pol, args2(sym_s(q), t))
}

fn accept_exec() -> (r: Term)
    ensures
        r@ == accept_t(),
{
    proof {
        reveal_strlit("accept");
        assert("accept"@ =~= seq!['a', 'c', 'c', 'e', 'p', 't']);
    }
    konst("accept")
}

fn child_var(r: usize, i: usize) -> (t: Term)
    ensures
        t@ == tvar(child_var_name(r as nat, i as nat)),
{
    proof {
        reveal_strlit("X_r");
        reveal_strlit("_c");
    }
    let s = String::from_str("X_r");
    let s = s.concat(usize_text(r).as_str());
    let s = s.concat("_c");
    let s = s.concat(usize_text(i).as_str());
    proof {
        assert("X_r"@ =~= seq!['X', '_', 'r']);
        assert("_c"@ =~= seq!['_', 'c']);
        assert(s@ =~= child_var_name(r as nat, i as nat));
    }
    Term::Var(Var::Named(s))
}

fn push_rule_stars(rule: &NftaRule, r: usize, out: &mut Vec<Star>)
    ensures
        cons_v(final(out)@) == cons_v(old(out)@) + rule_stars(*rule, r as nat),
{
    let n = rule.successors.len();
    let mut vars: Vec<Term> = Vec::new();
    let mut i: usize = 0;
    while i < n
        invariant
            i <= n,
            n == rule.successors@.len(),
            vars.len() == i,
            forall|k: int| 0 <= k < i ==> (#[trigger] vars@[k])@ == tvar(child_var_name(r as nat, k as nat)),
        decreases n - i,
    {
        vars.push(child_var(r, i));
        i += 1;
    }
    proof {
        lemma_views_of(vars@);
        assert(views_of(vars@) =~= child_vars(r as nat, n as nat));
    }
    let ghost pattern_v = TermV::App(split_symbol(rule.symbol@).1, split_symbol(rule.symbol@).0, child_vars(r as nat, n as nat));
    let pattern = mk_app_str(rule.symbol.as_str(), vars);
    let ghost start = cons_v(out@);
    let mut j: usize = 0;
    while j < n
        invariant
            j <= n,
            n == rule.successors@.len(),
            pattern@ == pattern_v,
            pattern_v == TermV::App(split_symbol(rule.symbol@).1, split_symbol(rule.symbol@).0, child_vars(r as nat, n as nat)),
            cons_v(out@) == start + rule_stars(*rule, r as nat).take(j as int),
        decreases n - j,
    {
        let a = ta_exec(Polarity::Neg, &rule.state, pattern.clone());
        let b = ta_exec(Polarity::Pos, &rule.successors[j], child_var(r, j));
        let s = star2(a, b);
        proof {
            lemma_push_star(out@, s);
        }
        out.push(s);
        j += 1;
        assert(cons_v(out@) =~= start + rule_stars(*rule, r as nat).take(j as int));
    }
    assert(rule_stars(*rule, r as nat).take(n as int) =~= rule_stars(*rule, r as nat));
}

impl Nfta {
    /// `T★`: initial stars `[-i(T), +ta(q₀, T)]`, one star per child of each
    /// rule, the leaf stars and the terminal stars.
    pub fn machine_constellation(&self) -> (r: Constellation)
        ensures
            cons_v(r@) == machine_stars(*self),
            r.len() == self.initial.len() + successor_count(self.rules@, 0) + self.leaf_states.len()
                + self.terminal_pairs.len(),
            forall|k: int| 0 <= k < r.len() ==> (#[trigger] r@[k]).len() == 2,
    {
        proof {
            reveal_strlit("i");
            reveal_strlit("T");
            reveal_strlit("X_leaf");
            assert("i"@ =~= seq!['i']);
            assert("T"@ =~= seq!['T']);
            assert("X_leaf"@ =~= seq!['X', '_', 'l', 'e', 'a', 'f']);
        }
        let ghost inits = Seq::new(
            self.initial@.len(),
            |k: int|
                seq![
                    TermV::App(seq!['i'], Polarity::Neg, seq![tvar(seq!['T'])]),
                    ta(Polarity::Pos, self.initial@[k]@, tvar(seq!['T'])),
                ],
        );
        let ghost leaves = Seq::new(
            self.leaf_states@.len(),
            |k: int| seq![ta(Polarity::Neg, self.leaf_states@[k]@, tvar(seq!['X', '_', 'l', 'e', 'a', 'f'])), accept_t()],
        );
        let ghost terms = Seq::new(
            self.terminal_pairs@.len(),
            |k: int| seq![ta(Polarity::Neg, self.terminal_pairs@[k].0@, tsym(self.terminal_pairs@[k].1@)), accept_t()],
        );
        let mut stars: Vec<Star> = Vec::new();
        let mut i: usize = 0;
        while i < self.initial.len()
            invariant
                i <= self.initial@.len(),
                inits == Seq::new(
                    self.initial@.len(),
                    |k: int|
                        seq![
                            TermV::App(seq!['i'], Polarity::Neg, seq![tvar(seq!['T'])]),
                            ta(Polarity::Pos, self.initial@[k]@, tvar(seq!['T'])),
                        ],
                ),
                cons_v(stars@) == inits.take(i as int),
            decreases self.initial@.len() - i,
        {
            proof {
                reveal_strlit("i");
                reveal_strlit("T");
                assert("i"@ =~= seq!['i']);
                assert("T"@ =~= seq!['T']);
            }
            let a = app("i", Polarity::Neg, args1(var("T")));
            let b = ta_exec(Polarity::Pos, &self.initial[i], var("T"));
            let s = star2(a, b);
            proof {
                lemma_push_star(stars@, s);
            }
            stars.push(s);
            i += 1;
            assert(cons_v(stars@) =~= inits.take(i as int));
        }
        assert(inits.take(i as int) =~= inits);
        let mut r: usize = 0;
        while r < self.rules.len()
            invariant
                r <= self.rules@.len(),
                cons_v(stars@) + all_rule_stars(self.rules@, r as nat) == inits + all_rule_stars(self.rules@, 0),
            decreases self.rules@.len() - r,
        {
            let ghost before = cons_v(stars@);
            push_rule_stars(&self.rules[r], r, &mut stars);
            proof {
                assert(all_rule_stars(self.rules@, r as nat) == rule_stars(self.rules@[r as int], r as nat)
                    + all_rule_stars(self.rules@, (r + 1) as nat));
                assert(cons_v(stars@) + all_rule_stars(self.rules@, (r + 1) as nat) =~= before + all_rule_stars(self.rules@, r as nat));
            }
            r += 1;
        }
        assert(all_rule_stars(self.rules@, r as nat) =~= Seq::<Seq<TermV>>::empty());
        assert(cons_v(stars@) =~= inits + all_rule_stars(self.rules@, 0));
        let ghost base = cons_v(stars@);
        let mut j: usize = 0;
        while j < self.leaf_states.len()
            invariant
                j <= self.leaf_states@.len(),
                leaves == Seq::new(
                    self.leaf_states@.len(),
                    |k: int| seq![ta(Polarity::Neg, self.leaf_states@[k]@, tvar(seq!['X', '_', 'l', 'e', 'a', 'f'])), accept_t()],
                ),
                cons_v(stars@) == base + leaves.take(j as int),
            decreases self.leaf_states@.len() - j,
        {
            proof {
                reveal_strlit("X_leaf");
                assert("X_leaf"@ =~= seq!['X', '_', 'l', 'e', 'a', 'f']);
            }
            let a = ta_exec(Polarity::Neg, &self.leaf_states[j], var("X_leaf"));
            let s = star2(a, accept_exec());
            proof {
                lemma_push_star(stars@, s);
            }
            stars.push(s);
            j += 1;
            assert(cons_v(stars@) =~= base + leaves.take(j as int));
        }
        assert(leaves.take(j as int) =~= leaves);
        let ghost base2 = cons_v(stars@);
        let mut k: usize = 0;
        while k < self.terminal_pairs.len()
            invariant
                k <= self.terminal_pairs@.len(),
                terms == Seq::new(
                    self.terminal_pairs@.len(),
                    |k: int| seq![ta(Polarity::Neg, self.terminal_pairs@[k].0@, tsym(self.terminal_pairs@[k].1@)), accept_t()],
                ),
                cons_v(stars@) == base2 + terms.take(k as int),
            decreases self.terminal_pairs@.len() - k,
        {
            let pair = &self.terminal_pairs[k];
            let a = ta_exec(Polarity::Neg, &pair.0, sym_s(&pair.1));
            let s = star2(a, accept_exec());
            proof {
                lemma_push_star(stars@, s);
            }
            stars.push(s);
            k += 1;
            assert(cons_v(stars@) =~= base2 + terms.take(k as int));
        }
        assert(terms.take(k as int) =~= terms);
        proof {
            lemma_machine_stars_shape(*self);
            assert(cons_v(stars@).len() == stars.len());
            assert forall|k: int| 0 <= k < stars.len() implies (#[trigger] stars@[k]).len() == 2 by {
                assert(cons_v(stars@)[k] == views_of(stars@[k]@));
                lemma_views_of(stars@[k]@);
            }
        }
        stars
    }

    /// Whether the automaton accepts `tree`: a successful top-down run from
    /// some initial state.
    pub fn accepts(&self, tree: &Tree) -> (r: bool)
        ensures
            r == nfta_accepts(*self, *tree),
    {
        let mut k: usize = 0;
        while k < self.initial.len()
            invariant
                k <= self.initial.len(),
                forall|m: int| 0 <= m < k ==> !#[trigger] run_ok(*self, self.initial@[m]@, *tree),
            decreases self.initial.len() - k,
        {
            if self.run_from(&self.initial[k], tree) {
                return true;
            }
            k += 1;
        }
        false
    }

    /// Whether `t` is accepted from state `q`.
    pub fn run_from(&self, q: &String, t: &Tree) -> (r: bool)
        ensures
            r == run_ok(*self, q@, *t),
        decreases t,
    {
        match t {
            Tree::Leaf(_) => {
                let mut k: usize = 0;
                #[verifier::loop_isolation(false)]
                while k < self.leaf_states.len()
                    invariant
                        k <= self.leaf_states.len(),
                        forall|m: int| 0 <= m < k ==> #[trigger] self.leaf_states@[m]@ != q@,
                    decreases self.leaf_states.len() - k,
                {
                    if self.leaf_states[k] == *q {
                        assert(self.leaf_states@[k as int]@ == q@);
                        return true;
                    }
                    k += 1;
                }
                false
            },
            Tree::Node(f, cs) => {
                if cs.len() == 0 {
                    let mut k: usize = 0;
                    #[verifier::loop_isolation(false)]
                    while k < self.terminal_pairs.len()
                        invariant
                            k <= self.terminal_pairs.len(),
                            forall|m: int|
                                0 <= m < k ==> !(#[trigger] self.terminal_pairs@[m].0@ == q@
                                    && self.terminal_pairs@[m].1@ == f@),
                        decreases self.terminal_pairs.len() - k,
                    {
                        if self.terminal_pairs[k].0 == *q && self.terminal_pairs[k].1 == *f {
                            assert(self.terminal_pairs@[k as int].0@ == q@ && self.terminal_pairs@[k as int].1@ == f@);
                            return true;
                        }
                        k += 1;
                    }
                }
                let mut r: usize = 0;
                #[verifier::loop_isolation(false)]
                while r < self.rules.len()
                    invariant
                        r <= self.rules.len(),
                        forall|m: int|
                            0 <= m < r ==> !(#[trigger] self.rules@[m].state@ == q@ && self.rules@[m].symbol@ == f@
                                && self.rules@[m].successors@.len() == cs@.len() && children_ok(
                                *self,
                                self.rules@[m].successors@,
                                cs@,
                            )),
                    decreases self.rules.len() - r,
                {
                    let rule = &self.rules[r];
                    if rule.state == *q && rule.symbol == *f && rule.successors.len() == cs.len() {
                        let mut i: usize = 0;
                        let mut all = true;
                        proof {
                            lemma_children_ok(*self, rule.successors@, cs@);
                        }
                        #[verifier::loop_isolation(false)]
                        while i < cs.len()
                            invariant
                                i <= cs.len(),
                                rule.successors.len() == cs.len(),
                                all ==> forall|m: int| 0 <= m < i ==> run_ok(*self, rule.successors@[m]@, #[trigger] cs@[m]),
                                !all ==> exists|m: int| 0 <= m < cs.len() && !run_ok(*self, rule.successors@[m]@, #[trigger] cs@[m]),
                            decreases cs.len() - i,
                        {
                            proof {
                                assert(decreases_to!(cs => cs@[i as int]));
                            }
                            if !self.run_from(&rule.successors[i], &cs[i]) {
                                all = false;
                                break;
                            }
                            i += 1;
                        }
                        if all {
                            assert(children_ok(*self, self.rules@[r as int].successors@, cs@));
                            assert(self.rules@[r as int].state@ == q@);
                            return true;
                        }
                    }
                    r += 1;
                }
                false
            },
        }
    }
}

/// The number of rule stars from rule number `r` on: one per successor.
pub open spec fn successor_count(rules: Seq<NftaRule>, r: nat) -> nat
    decreases rules.len() - r,
{
    if r >= rules.len() {
        0
    } else {
        rules[r as int].successors@.len() + successor_count(rules, r + 1)
    }
}

proof fn lemma_rule_stars_shape(rules: Seq<NftaRule>, r: nat)
    ensures
        all_rule_stars(rules, r).len() == successor_count(rules, r),
        forall|k: int| 0 <= k < all_rule_stars(rules, r).len() ==> (#[trigger] all_rule_stars(rules, r)[k]).len() == 2,
    decreases rules.len() - r,
{
    if r < rules.len() {
        lemma_rule_stars_shape(rules, r + 1);
        let h = rule_stars(rules[r as int], r);
        let t = all_rule_stars(rules, r + 1);
        assert forall|k: int| 0 <= k < all_rule_stars(rules, r).len() implies (#[trigger] all_rule_stars(rules, r)[k]).len() == 2 by {
            if k < h.len() {
                assert(all_rule_stars(rules, r)[k] == h[k]);
            } else {
                assert(all_rule_stars(rules, r)[k] == t[k - h.len()]);
            }
        }
    }
}

/// `T★` has one star per initial state, one per successor of each rule, one
/// per leaf state and one per terminal pair, every star of two rays; its
/// first stars are `[-i(T), +ta(q₀, T)]` for the initial states, in order.
pub proof fn lemma_machine_stars_shape(a: Nfta)
    ensures
        machine_stars(a).len() == a.initial@.len() + successor_count(a.rules@, 0) + a.leaf_states@.len()
            + a.terminal_pairs@.len(),
        forall|k: int| 0 <= k < machine_stars(a).len() ==> (#[trigger] machine_stars(a)[k]).len() == 2,
        forall|k: int| 0 <= k < a.initial@.len() ==> #[trigger] machine_stars(a)[k] == seq![
            TermV::App(seq!['i'], Polarity::Neg, seq![tvar(seq!['T'])]),
            ta(Polarity::Pos, a.initial@[k]@, tvar(seq!['T'])),
        ],
{
    lemma_rule_stars_shape(a.rules@, 0);
    let m = machine_stars(a);
    let ni = a.initial@.len() as int;
    let nr = all_rule_stars(a.rules@, 0).len() as int;
    let nl = a.leaf_states@.len() as int;
    assert forall|k: int| 0 <= k < m.len() implies (#[trigger] m[k]).len() == 2 by {
        if k < ni {
        } else if k < ni + nr {
            assert(m[k] == all_rule_stars(a.rules@, 0)[k - ni]);
        } else if k < ni + nr + nl {
        } else {
        }
    }
}

/// Two automata with the same rules, leaf states and terminal pairs: they
/// differ at most in their states and initial states.
pub open spec fn same_transitions(a: Nfta, b: Nfta) -> bool {
    &&& a.rules@ == b.rules@
    &&& a.leaf_states@ == b.leaf_states@
    &&& a.terminal_pairs@ == b.terminal_pairs@
}

/// Whether a run from a state succeeds depends on the transitions alone,
/// not on which states are initial.
pub proof fn lemma_run_ok_same_transitions(a: Nfta, b: Nfta, q: Seq<char>, t: Tree)
    requires
        same_transitions(a, b),
    ensures
        run_ok(a, q, t) == run_ok(b, q, t),
    decreases t,
{
    match t {
        Tree::Leaf(_) => {},
        Tree::Node(f, cs) => {
            assert forall|i: int, p: Seq<char>| 0 <= i < cs@.len() implies #[trigger] run_ok(a, p, cs@[i])
                == run_ok(b, p, cs@[i]) by {
                assert(decreases_to!(t => cs));
                assert(decreases_to!(cs => cs@[i]));
                lemma_run_ok_same_transitions(a, b, p, cs@[i]);
            }
            assert forall|r: int| 0 <= r < a.rules@.len() && a.rules@[r].successors@.len() == cs@.len()
                implies children_ok(a, #[trigger] a.rules@[r].successors@, cs@) == children_ok(
                b,
                a.rules@[r].successors@,
                cs@,
            ) by {
                lemma_children_ok(a, a.rules@[r].successors@, cs@);
                lemma_children_ok(b, a.rules@[r].successors@, cs@);
            }
            if run_ok(a, q, t) {
                if !(cs@.len() == 0 && exists|k: int|
                    0 <= k < a.terminal_pairs@.len() && #[trigger] a.terminal_pairs@[k].0@ == q
                        && a.terminal_pairs@[k].1@ == f@) {
                    let r = choose|r: int|
                        0 <= r < a.rules@.len() && #[trigger] a.rules@[r].state@ == q && a.rules@[r].symbol@
                            == f@ && a.rules@[r].successors@.len() == cs@.len() && children_ok(
                            a,
                            a.rules@[r].successors@,
                            cs@,
                        );
                    assert(b.rules@[r] == a.rules@[r]);
                }
            }
            if run_ok(b, q, t) {
                if !(cs@.len() == 0 && exists|k: int|
                    0 <= k < b.terminal_pairs@.len() && #[trigger] b.terminal_pairs@[k].0@ == q
                        && b.terminal_pairs@[k].1@ == f@) {
                    let r = choose|r: int|
                        0 <= r < b.rules@.len() && #[trigger] b.rules@[r].state@ == q && b.rules@[r].symbol@
                            == f@ && b.rules@[r].successors@.len() == cs@.len() && children_ok(
                            b,
                            b.rules@[r].successors@,
                            cs@,
                        );
                    assert(b.rules@[r] == a.rules@[r]);
                }
            }
        },
    }
}

/// Acceptance tries every initial state: the automaton accepts `t` exactly
/// when `t` has a successful run from one of its initial states, wherever
/// that state stands in the list.
pub proof fn lemma_accepts_some_initial(a: Nfta, t: Tree, k: int)
    requires
        0 <= k < a.initial@.len(),
        run_ok(a, a.initial@[k]@, t),
    ensures
        nfta_accepts(a, t),
{
}

/// A tree that the automaton accepts has a successful run from an initial state.
pub proof fn lemma_accepts_has_initial_run(a: Nfta, t: Tree)
    requires
        nfta_accepts(a, t),
    ensures
        exists|k: int| 0 <= k < a.initial@.len() && #[trigger] run_ok(a, a.initial@[k]@, t),
{
}

/// Acceptance is monotone in the initial states: an automaton with the same
/// transitions whose initial states include those of `a` accepts every tree
/// that `a` accepts. So the order of the initial states does not matter.
pub proof fn lemma_accepts_initial_monotone(a: Nfta, b: Nfta, t: Tree)
    requires
        same_transitions(a, b),
        forall|k: int| 0 <= k < a.initial@.len() ==> exists|m: int|
            0 <= m < b.initial@.len() && #[trigger] b.initial@[m]@ == #[trigger] a.initial@[k]@,
        nfta_accepts(a, t),
    ensures
        nfta_accepts(b, t),
{
    let k = choose|k: int| 0 <= k < a.initial@.len() && #[trigger] run_ok(a, a.initial@[k]@, t);
    let m = choose|m: int| 0 <= m < b.initial@.len() && #[trigger] b.initial@[m]@ == a.initial@[k]@;
    lemma_run_ok_same_transitions(a, b, a.initial@[k]@, t);
    assert(run_ok(b, b.initial@[m]@, t));
}

/// A run on a node `f(t₁, …, tₙ)` from `q`: either the node is a constant
/// and `(q, f)` is a terminal pair, or some rule for `q` and `f` has `n`
/// successor states and each child `tᵢ` has a run from the `i`-th of them.
pub proof fn lemma_run_ok_node(a: Nfta, q: Seq<char>, f: String, cs: Vec<Tree>)
    ensures
        run_ok(a, q, Tree::Node(f, cs)) <==> ((cs@.len() == 0 && exists|k: int|
            0 <= k < a.terminal_pairs@.len() && #[trigger] a.terminal_pairs@[k].0@ == q
                && a.terminal_pairs@[k].1@ == f@) || exists|r: int|
            0 <= r < a.rules@.len() && #[trigger] a.rules@[r].state@ == q && a.rules@[r].symbol@ == f@
                && a.rules@[r].successors@.len() == cs@.len() && forall|i: int|
                0 <= i < cs@.len() ==> run_ok(a, a.rules@[r].successors@[i]@, #[trigger] cs@[i])),
{
    assert forall|r: int| 0 <= r < a.rules@.len() && a.rules@[r].successors@.len() == cs@.len() implies (
    children_ok(a, #[trigger] a.rules@[r].successors@, cs@) <==> forall|i: int|
        0 <= i < cs@.len() ==> run_ok(a, a.rules@[r].successors@[i]@, #[trigger] cs@[i])) by {
        lemma_children_ok(a, a.rules@[r].successors@, cs@);
    }
}

/// A leaf has a run from `q` exactly when `q` is one of the leaf states.
pub proof fn lemma_run_ok_leaf(a: Nfta, q: Seq<char>, x: String)
    ensures
        run_ok(a, q, Tree::Leaf(x)) <==> exists|k: int| 0 <= k < a.leaf_states@.len() && #[trigger] a.leaf_states@[k]@ == q,
{
}

} // verus!
