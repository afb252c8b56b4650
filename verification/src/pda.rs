//! Non-deterministic pushdown automata as constellations (§56.9–§56.13).
//!
//! * the word `c₁…cₙ` is the star `[+i(c₁ · … · cₙ · eps)]`;
//! * each initial state `q₀` gives `[-i(W), +p(W, q₀, $)]`;
//! * each final state `q_f` gives `[-p(eps, q_f, $), accept]`;
//! * a transition `(q, c, a, q', b)` gives `[-p(c·W, q, a·S), +p(W, q', b·S)]`,
//!   where an absent `c`, `a` or `b` leaves `W` or `S` bare.
//!
//! The automaton accepts the word when `[accept]` is among the visible stars
//! of the interactive execution of the machine against the word star.
use vstd::prelude::*;
use crate::term::{lemma_views_of, views_of, Polarity, Term, TermV};
use crate::constellation::{cons_v, star_v, visible, Constellation, Star};
use crate::interactive::{accept_star, iex_nfa_accepts, iex_post};
use crate::termkit::{app, args1, args3, cons, konst, star2, sym, sym_s, tconst, tcons, tsym, tvar, var};

verus! {

broadcast use vstd::std_specs::vec::group_vec_axioms;

/// A pushdown automaton: states, input and stack alphabets, initial and final
/// states, and transitions `(q, input or ε, popped or ε, q', pushed or ε)`.
#[derive(Debug)]
pub struct Npda {
    pub states: Vec<String>,
    pub alphabet: Vec<String>,
    pub stack_alphabet: Vec<String>,
    pub initial: Vec<String>,
    pub finals: Vec<String>,
    pub transitions: Vec<(String, Option<String>, Option<String>, String, Option<String>)>,
}

pub open spec fn opt_v(o: Option<String>) -> Option<Seq<char>> {
    match o {
        Some(s) => Some(s@),
        None => None,
    }
}

/// `x · t`, or `t` when `x` is absent.
pub open spec fn opt_cons(x: Option<Seq<char>>, t: TermV) -> TermV {
    match x {
        Some(a) => tcons(tsym(a), t),
        None => t,
    }
}

/// The ray `±p(input, q, stack)`.
pub open spec fn p_ray(pol: Polarity, input: TermV, q: Seq<char>, stack: TermV) -> TermV {
    TermV::App(seq!['p'], pol, seq![input, tsym(q), stack])
}

pub open spec fn w_var() -> TermV {
    tvar(seq!['W'])
}

pub open spec fn s_var() -> TermV {
    tvar(seq!['S'])
}

pub open spec fn dollar() -> TermV {
    tconst(seq!['$'])
}

/// The star of the transition `(q, c, a, q', b)`.
pub open spec fn transition_star(
    q: Seq<char>,
    c: Option<Seq<char>>,
    a: Option<Seq<char>>,
    q2: Seq<char>,
    b: Option<Seq<char>>,
) -> Seq<TermV> {
    seq![
        p_ray(Polarity::Neg, opt_cons(c, w_var()), q, opt_cons(a, s_var())),
        p_ray(Polarity::Pos, w_var(), q2, opt_cons(b, s_var())),
    ]
}

/// The initial star of `q₀`.
pub open spec fn initial_star(q0: Seq<char>) -> Seq<TermV> {
    seq![
        TermV::App(seq!['i'], Polarity::Neg, seq![w_var()]),
        p_ray(Polarity::Pos, w_var(), q0, dollar()),
    ]
}

/// The final star of `q_f`.
pub open spec fn final_star(qf: Seq<char>) -> Seq<TermV> {
    seq![
        p_ray(Polarity::Neg, tconst(seq!['e', 'p', 's']), qf, dollar()),
        tconst(seq!['a', 'c', 'c', 'e', 'p', 't']),
    ]
}

/// `n` copies of a list of stars, one after the other.
pub open spec fn repeat(s: Seq<Seq<TermV>>, n: nat) -> Seq<Seq<TermV>>
    decreases n,
{
    if n == 0 {
        Seq::empty()
    } else {
        repeat(s, (n - 1) as nat) + s
    }
}

/// `P★` with `n` copies of the transition stars.
pub open spec fn npda_stars(pda: Npda, n: nat) -> Seq<Seq<TermV>> {
    let inits = Seq::new(pda.initial@.len(), |k: int| initial_star(pda.initial@[k]@));
    let fins = Seq::new(pda.finals@.len(), |k: int| final_star(pda.finals@[k]@));
    let trans = Seq::new(
        pda.transitions@.len(),
        |k: int|
            {
                let t = pda.transitions@[k];
                transition_star(t.0@, opt_v(t.1), opt_v(t.2), t.3@, opt_v(t.4))
            },
    );
    inits + fins + repeat(trans, n)
}

/// `c₁ · … · cₙ · eps`.
pub open spec fn word_term(w: Seq<Seq<char>>) -> TermV
    decreases w.len(),
{
    if w.len() == 0 {
        tconst(seq!['e', 'p', 's'])
    } else {
        tcons(tsym(w[0]), word_term(w.drop_first()))
    }
}

/// The word star `[+i(c₁ · … · cₙ · eps)]`.
pub open spec fn word_star(w: Seq<Seq<char>>) -> Seq<TermV> {
    seq![TermV::App(seq!['i'], Polarity::Pos, seq![word_term(w)])]
}

pub open spec fn word_v(word: Seq<&str>) -> Seq<Seq<char>> {
    Seq::new(word.len(), |k: int| word[k]@)
}

/// What the acceptance test answers: `[accept]` is visible in an outcome of the
/// interactive execution of `phi` against `psi` within `fuel` steps.
pub open spec fn accepts_spec(phi: Seq<Seq<TermV>>, psi: Seq<Seq<TermV>>, fuel: nat, r: bool) -> bool {
    exists|out: Seq<Seq<TermV>>, normal: bool, steps: nat|
        iex_post(phi, psi, fuel, out, normal, steps) && r == visible(out).contains(accept_star())
}

proof fn lemma_push_star(c: Seq<Vec<Term>>, s: Vec<Term>)
    ensures
        cons_v(c.push(s)) == cons_v(c).push(views_of(s@)),
{
    assert(cons_v(c.push(s)) =~= cons_v(c).push(views_of(s@)));
}

fn opt_cons_exec(x: &Option<String>, t: Term) -> (r: Term)
    ensures
        r@ == opt_cons(opt_v(*x), t@),
{
    match x {
        Some(a) => cons(sym_s(a), t),
        None => t,
    }
}

fn p_ray_exec(pol: Polarity, input: Term, q: Term, stack: Term) -> (r: Term)
    ensures
        r@ == TermV::App(seq!['p'], pol, seq![input@, q@, stack@]),
{
    proof {
        reveal_strlit("p");
        assert("p"@ =~= seq!['p']);
    }
    app("p", pol, args3(input, q, stack))
}

fn w_exec() -> (r: Term)
    ensures
        r@ == w_var(),
{
    proof {
        reveal_strlit("W");
        assert("W"@ =~= seq!['W']);
    }
    var("W")
}

fn s_exec() -> (r: Term)
    ensures
        r@ == s_var(),
{
    proof {
        reveal_strlit("S");
        assert("S"@ =~= seq!['S']);
    }
    var("S")
}

fn dollar_exec() -> (r: Term)
    ensures
        r@ == dollar(),
{
    proof {
        reveal_strlit("$");
        assert("$"@ =~= seq!['$']);
    }
    konst("$")
}

fn build_transition_star(
    q: &String,
    c_opt: &Option<String>,
    a_opt: &Option<String>,
    q_prime: &String,
    b_opt: &Option<String>,
) -> (r: Star)
    ensures
        star_v(r@) == transition_star(q@, opt_v(*c_opt), opt_v(*a_opt), q_prime@, opt_v(*b_opt)),
{
    let stack_neg = opt_cons_exec(a_opt, s_exec());
    let stack_pos = opt_cons_exec(b_opt, s_exec());
    let input_neg = opt_cons_exec(c_opt, w_exec());
    let left = p_ray_exec(Polarity::Neg, input_neg, sym_s(q), stack_neg);
    let right = p_ray_exec(Polarity::Pos, w_exec(), sym_s(q_prime), stack_pos);
    star2(left, right)
}

fn initial_star_exec(q0: &String) -> (r: Star)
    ensures
        star_v(r@) == initial_star(q0@),
{
    proof {
        reveal_strlit("i");
        assert("i"@ =~= seq!['i']);
    }
    let a = app("i", Polarity::Neg, args1(w_exec()));
    let b = p_ray_exec(Polarity::Pos, w_exec(), sym_s(q0), dollar_exec());
    star2(a, b)
}

fn final_star_exec(qf: &String) -> (r: Star)
    ensures
        star_v(r@) == final_star(qf@),
{
    proof {
        reveal_strlit("eps");
        reveal_strlit("accept");
        assert("eps"@ =~= seq!['e', 'p', 's']);
        assert("accept"@ =~= seq!['a', 'c', 'c', 'e', 'p', 't']);
    }
    let a = p_ray_exec(Polarity::Neg, konst("eps"), sym_s(qf), dollar_exec());
    let b = konst("accept");
    star2(a, b)
}

/// The word star `[+i(c₁ · … · cₙ · eps)]`.
fn encode_word(word: &[&str]) -> (r: Star)
    ensures
        star_v(r@) == word_star(word_v(word@)),
{
    proof {
        reveal_strlit("eps");
        reveal_strlit("i");
        assert("eps"@ =~= seq!['e', 'p', 's']);
        assert("i"@ =~= seq!['i']);
    }
    let ghost w = word_v(word@);
    let mut t = konst("eps");
    let mut k: usize = word.len();
    assert(w.skip(k as int) =~= Seq::<Seq<char>>::empty());
    while k > 0
        invariant
            k <= word@.len(),
            w == word_v(word@),
            t@ == word_term(w.skip(k as int)),
        decreases k,
    {
        k -= 1;
        proof {
            assert(w.skip(k as int).drop_first() =~= w.skip(k + 1));
            assert(w.skip(k as int)[0] == word@[k as int]@);
        }
        let c = sym(word[k]);
        t = cons(c, t);
    }
    assert(w.skip(0) =~= w);
    let r = args1(app("i", Polarity::Pos, args1(t)));
    r
}

/// `P★`: the initial stars, the final stars, then `n_copies` copies of the
/// transition stars.
pub fn encode_npda(pda: &Npda, n_copies: usize) -> (r: Constellation)
    ensures
        cons_v(r@) == npda_stars(*pda, n_copies as nat),
        r.len() == pda.initial.len() + pda.finals.len() + n_copies * pda.transitions.len(),
        forall|k: int| 0 <= k < r.len() ==> (#[trigger] r@[k]).len() == 2,
{
    let ghost inits = Seq::new(pda.initial@.len(), |k: int| initial_star(pda.initial@[k]@));
    let ghost fins = Seq::new(pda.finals@.len(), |k: int| final_star(pda.finals@[k]@));
    let ghost trans = Seq::new(
        pda.transitions@.len(),
        |k: int|
            {
                let t = pda.transitions@[k];
                transition_star(t.0@, opt_v(t.1), opt_v(t.2), t.3@, opt_v(t.4))
            },
    );
    let mut c: Vec<Star> = Vec::new();
    let mut i: usize = 0;
    while i < pda.initial.len()
        invariant
            i <= pda.initial@.len(),
            inits == Seq::new(pda.initial@.len(), |k: int| initial_star(pda.initial@[k]@)),
            cons_v(c@) == inits.take(i as int),
        decreases pda.initial@.len() - i,
    {
        let s = initial_star_exec(&pda.initial[i]);
        proof {
            lemma_push_star(c@, s);
        }
        c.push(s);
        i += 1;
        assert(cons_v(c@) =~= inits.take(i as int));
    }
    assert(inits.take(i as int) =~= inits);
    let mut j: usize = 0;
    while j < pda.finals.len()
        invariant
            j <= pda.finals@.len(),
            fins == Seq::new(pda.finals@.len(), |k: int| final_star(pda.finals@[k]@)),
            cons_v(c@) == inits + fins.take(j as int),
        decreases pda.finals@.len() - j,
    {
        let s = final_star_exec(&pda.finals[j]);
        proof {
            lemma_push_star(c@, s);
        }
        c.push(s);
        j += 1;
        assert(cons_v(c@) =~= inits + fins.take(j as int));
    }
    assert(fins.take(j as int) =~= fins);
    let mut n: usize = 0;
    while n < n_copies
        invariant
            n <= n_copies,
            trans == Seq::new(
                pda.transitions@.len(),
                |k: int|
                    {
                        let t = pda.transitions@[k];
                        transition_star(t.0@, opt_v(t.1), opt_v(t.2), t.3@, opt_v(t.4))
                    },
            ),
            cons_v(c@) == inits + fins + repeat(trans, n as nat),
        decreases n_copies - n,
    {
        let ghost base = cons_v(c@);
        let mut m: usize = 0;
        while m < pda.transitions.len()
            invariant
                m <= pda.transitions@.len(),
                trans == Seq::new(
                    pda.transitions@.len(),
                    |k: int|
                        {
                            let t = pda.transitions@[k];
                            transition_star(t.0@, opt_v(t.1), opt_v(t.2), t.3@, opt_v(t.4))
                        },
                ),
                cons_v(c@) == base + trans.take(m as int),
            decreases pda.transitions@.len() - m,
        {
            let t = &pda.transitions[m];
            let s = build_transition_star(&t.0, &t.1, &t.2, &t.3, &t.4);
            proof {
                lemma_push_star(c@, s);
            }
            c.push(s);
            m += 1;
            assert(cons_v(c@) =~= base + trans.take(m as int));
        }
        assert(trans.take(m as int) =~= trans);
        n += 1;
        assert(cons_v(c@) =~= inits + fins + repeat(trans, n as nat));
    }
    proof {
        lemma_npda_stars_shape(*pda, n_copies as nat);
        assert(cons_v(c@).len() == c.len());
        assert forall|k: int| 0 <= k < c.len() implies (#[trigger] c@[k]).len() == 2 by {
            assert(cons_v(c@)[k] == views_of(c@[k]@));
            lemma_views_of(c@[k]@);
        }
    }
    c
}

/// `w★ + P★`: the word star, then the machine.
pub fn npda_constellation(pda: &Npda, word: &[&str], word_copies: usize) -> (r: Constellation)
    ensures
        cons_v(r@) == seq![word_star(word_v(word@))] + npda_stars(*pda, word_copies as nat),
{
    let w = encode_word(word);
    let m = encode_npda(pda, word_copies);
    let mut phi: Vec<Star> = Vec::new();
    proof {
        lemma_push_star(phi@, w);
        assert(cons_v(phi@) =~= Seq::<Seq<TermV>>::empty());
    }
    phi.push(w);
    let mut i: usize = 0;
    let ghost ms = cons_v(m@);
    while i < m.len()
        invariant
            i <= m.len(),
            ms == cons_v(m@),
            cons_v(phi@) == seq![word_star(word_v(word@))] + ms.take(i as int),
        decreases m.len() - i,
    {
        let s = crate::constellation::copy_star(&m[i]);
        proof {
            lemma_push_star(phi@, s);
        }
        phi.push(s);
        i += 1;
        assert(cons_v(phi@) =~= seq![word_star(word_v(word@))] + ms.take(i as int));
    }
    assert(ms.take(i as int) =~= ms);
    phi
}

/// Whether the automaton accepts `word`: `[accept]` is visible after the
/// interactive execution of `P★` (with `n_copies` copies of the transitions)
/// against the word star, within `fuel` steps.
pub fn npda_accepts(pda: &Npda, word: &[&str], n_copies: usize, fuel: usize) -> (r: bool)
    ensures
        accepts_spec(npda_stars(*pda, n_copies as nat), seq![word_star(word_v(word@))], fuel as nat, r),
{
    let word_star = encode_word(word);
    let phi = encode_npda(pda, n_copies);
    let psi = vec![word_star];
    proof {
        assert(cons_v(psi@) =~= seq![star_v(word_star@)]);
    }
    iex_nfa_accepts(&phi, psi, fuel)
}

/// The texts of a list of strings.
pub open spec fn strs_v(s: Seq<String>) -> Seq<Seq<char>> {
    s.map_values(|x: String| x@)
}

/// A transition `(q, read, pop, q', push)` by the texts it holds.
pub open spec fn trans_v(t: (String, Option<String>, Option<String>, String, Option<String>)) -> (
    Seq<char>,
    Option<Seq<char>>,
    Option<Seq<char>>,
    Seq<char>,
    Option<Seq<char>>,
) {
    (t.0@, opt_v(t.1), opt_v(t.2), t.3@, opt_v(t.4))
}

/// The transitions of the `{0ⁿ1ⁿ}` automaton: in `q0` read `0` and push
/// `0`; read `1`, pop `0` and go to `q1`; in `q1` read `1` and pop `0`;
/// with nothing read or popped go from `q1` to `q2`.
pub open spec fn fig562_transitions() -> Seq<(Seq<char>, Option<Seq<char>>, Option<Seq<char>>, Seq<char>, Option<Seq<char>>)> {
    seq![
        (seq!['q', '0'], Some(seq!['0']), None, seq!['q', '0'], Some(seq!['0'])),
        (seq!['q', '0'], Some(seq!['1']), Some(seq!['0']), seq!['q', '1'], None),
        (seq!['q', '1'], Some(seq!['1']), Some(seq!['0']), seq!['q', '1'], None),
        (seq!['q', '1'], None, None, seq!['q', '2'], None),
    ]
}

/// Two-state-plus-final automaton for `{0ⁿ1ⁿ | n ≥ 0}`.
pub fn eng_fig562_npda() -> (r: Npda)
    ensures
        strs_v(r.states@) == seq![seq!['q', '0'], seq!['q', '1'], seq!['q', '2']],
        strs_v(r.alphabet@) == seq![seq!['0'], seq!['1']],
        strs_v(r.stack_alphabet@) == seq![seq!['0'], seq!['$']],
        strs_v(r.initial@) == seq![seq!['q', '0']],
        strs_v(r.finals@) == seq![seq!['q', '2']],
        r.transitions@.map_values(|t: (String, Option<String>, Option<String>, String, Option<String>)| trans_v(t))
            == fig562_transitions(),
{
    proof {
        reveal_strlit("q0");
        reveal_strlit("q1");
        reveal_strlit("q2");
        reveal_strlit("0");
        reveal_strlit("1");
        reveal_strlit("$");
    }
    let r = Npda {
        states: vec![String::from_str("q0"), String::from_str("q1"), String::from_str("q2")],
        alphabet: vec![String::from_str("0"), String::from_str("1")],
        stack_alphabet: vec![String::from_str("0"), String::from_str("$")],
        initial: vec![String::from_str("q0")],
        finals: vec![String::from_str("q2")],
        transitions: vec![
            (String::from_str("q0"), Some(String::from_str("0")), None, String::from_str("q0"), Some(String::from_str("0"))),
            (String::from_str("q0"), Some(String::from_str("1")), Some(String::from_str("0")), String::from_str("q1"), None),
            (String::from_str("q1"), Some(String::from_str("1")), Some(String::from_str("0")), String::from_str("q1"), None),
            (String::from_str("q1"), None, None, String::from_str("q2"), None),
        ],
    };
    proof {
        assert("q0"@ =~= seq!['q', '0']);
        assert("q1"@ =~= seq!['q', '1']);
        assert("q2"@ =~= seq!['q', '2']);
        assert("0"@ =~= seq!['0']);
        assert("1"@ =~= seq!['1']);
        assert("$"@ =~= seq!['$']);
        assert(strs_v(r.states@) =~= seq![seq!['q', '0'], seq!['q', '1'], seq!['q', '2']]);
        assert(strs_v(r.alphabet@) =~= seq![seq!['0'], seq!['1']]);
        assert(strs_v(r.stack_alphabet@) =~= seq![seq!['0'], seq!['$']]);
        assert(strs_v(r.initial@) =~= seq![seq!['q', '0']]);
        assert(strs_v(r.finals@) =~= seq![seq!['q', '2']]);
        assert(r.transitions@.map_values(
            |t: (String, Option<String>, Option<String>, String, Option<String>)| trans_v(t),
        ) =~= fig562_transitions());
    }
    r
}

/// The four transition stars of the `{0ⁿ1ⁿ}` automaton, the last one
/// requiring the bare stack `$`.
pub open spec fn fig562_block() -> Seq<Seq<TermV>> {
    let z = tsym(seq!['0']);
    let o = tsym(seq!['1']);
    seq![
        seq![
            p_ray(Polarity::Neg, tcons(z, w_var()), seq!['q', '0'], s_var()),
            p_ray(Polarity::Pos, w_var(), seq!['q', '0'], tcons(z, s_var())),
        ],
        seq![
            p_ray(Polarity::Neg, tcons(o, w_var()), seq!['q', '0'], tcons(z, s_var())),
            p_ray(Polarity::Pos, w_var(), seq!['q', '1'], s_var()),
        ],
        seq![
            p_ray(Polarity::Neg, tcons(o, w_var()), seq!['q', '1'], tcons(z, s_var())),
            p_ray(Polarity::Pos, w_var(), seq!['q', '1'], s_var()),
        ],
        seq![
            p_ray(Polarity::Neg, w_var(), seq!['q', '1'], dollar()),
            p_ray(Polarity::Pos, w_var(), seq!['q', '2'], dollar()),
        ],
    ]
}

/// The `{0ⁿ1ⁿ}` constellation: initial star, final star, and `n` copies of
/// the transition block.
pub open spec fn fig562_stars(n: nat) -> Seq<Seq<TermV>> {
    seq![initial_star(seq!['q', '0']), final_star(seq!['q', '2'])] + repeat(fig562_block(), n)
}

fn fig562_block_exec(out: &mut Vec<Star>)
    ensures
        cons_v(final(out)@) == cons_v(old(out)@) + fig562_block(),
{
    proof {
        reveal_strlit("0");
        reveal_strlit("1");
        reveal_strlit("q0");
        reveal_strlit("q1");
        reveal_strlit("q2");
        assert("0"@ =~= seq!['0']);
        assert("1"@ =~= seq!['1']);
        assert("q0"@ =~= seq!['q', '0']);
        assert("q1"@ =~= seq!['q', '1']);
        assert("q2"@ =~= seq!['q', '2']);
    }
    let ghost start = cons_v(out@);
    let s1 = star2(
        p_ray_exec(Polarity::Neg, cons(sym("0"), w_exec()), sym("q0"), s_exec()),
        p_ray_exec(Polarity::Pos, w_exec(), sym("q0"), cons(sym("0"), s_exec())),
    );
    proof {
        lemma_push_star(out@, s1);
    }
    out.push(s1);
    let s2 = star2(
        p_ray_exec(Polarity::Neg, cons(sym("1"), w_exec()), sym("q0"), cons(sym("0"), s_exec())),
        p_ray_exec(Polarity::Pos, w_exec(), sym("q1"), s_exec()),
    );
    proof {
        lemma_push_star(out@, s2);
    }
    out.push(s2);
    let s3 = star2(
        p_ray_exec(Polarity::Neg, cons(sym("1"), w_exec()), sym("q1"), cons(sym("0"), s_exec())),
        p_ray_exec(Polarity::Pos, w_exec(), sym("q1"), s_exec()),
    );
    proof {
        lemma_push_star(out@, s3);
    }
    out.push(s3);
    let s4 = star2(
        p_ray_exec(Polarity::Neg, w_exec(), sym("q1"), dollar_exec()),
        p_ray_exec(Polarity::Pos, w_exec(), sym("q2"), dollar_exec()),
    );
    proof {
        lemma_push_star(out@, s4);
    }
    out.push(s4);
    assert(cons_v(out@) =~= start + fig562_block());
}

/// The `{0ⁿ1ⁿ}` constellation with `n_copies` copies of its transition stars.
pub fn eng_fig562_npda_constellation(n_copies: usize) -> (r: Constellation)
    ensures
        cons_v(r@) == fig562_stars(n_copies as nat),
{
    proof {
        reveal_strlit("q0");
        reveal_strlit("q2");
        assert("q0"@ =~= seq!['q', '0']);
        assert("q2"@ =~= seq!['q', '2']);
    }
    let mut phi: Vec<Star> = Vec::new();
    let a = initial_star_exec(&String::from_str("q0"));
    proof {
        lemma_push_star(phi@, a);
        assert(cons_v(phi@) =~= Seq::<Seq<TermV>>::empty());
    }
    phi.push(a);
    let b = final_star_exec(&String::from_str("q2"));
    proof {
        lemma_push_star(phi@, b);
    }
    phi.push(b);
    let mut n: usize = 0;
    assert(cons_v(phi@) =~= fig562_stars(0));
    while n < n_copies
        invariant
            n <= n_copies,
            cons_v(phi@) == fig562_stars(n as nat),
        decreases n_copies - n,
    {
        fig562_block_exec(&mut phi);
        n += 1;
        assert(cons_v(phi@) =~= fig562_stars(n as nat));
    }
    phi
}

/// Whether the `{0ⁿ1ⁿ}` automaton accepts `word`, with two more copies of its
/// transitions than the word has letters.
pub fn fig562_accepts(word: &[&str], fuel: usize) -> (r: bool)
    requires
        word@.len() + 2 <= usize::MAX,
    ensures
        accepts_spec(fig562_stars((word@.len() + 2) as nat), seq![word_star(word_v(word@))], fuel as nat, r),
{
    let n_copies = word.len() + 2;
    let word_star = encode_word(word);
    let phi = eng_fig562_npda_constellation(n_copies);
    let psi = vec![word_star];
    proof {
        assert(cons_v(psi@) =~= seq![star_v(word_star@)]);
    }
    iex_nfa_accepts(&phi, psi, fuel)
}

proof fn lemma_repeat_len(s: Seq<Seq<TermV>>, n: nat)
    ensures
        repeat(s, n).len() == n * s.len(),
    decreases n,
{
    if n > 0 {
        lemma_repeat_len(s, (n - 1) as nat);
        assert(n * s.len() == (n - 1) * s.len() + s.len()) by (nonlinear_arith)
            requires
                n > 0,
        ;
    } else {
        assert(n * s.len() == 0) by (nonlinear_arith)
            requires
                n == 0,
        ;
    }
}

/// `P★` has one star per initial state, one per final state, then one per
/// transition in each of the `n` copies, every star of two rays.
pub proof fn lemma_npda_stars_shape(pda: Npda, n: nat)
    ensures
        npda_stars(pda, n).len() == pda.initial@.len() + pda.finals@.len() + n * pda.transitions@.len(),
        forall|k: int| 0 <= k < npda_stars(pda, n).len() ==> (#[trigger] npda_stars(pda, n)[k]).len() == 2,
{
    let trans = Seq::new(
        pda.transitions@.len(),
        |k: int|
            {
                let t = pda.transitions@[k];
                transition_star(t.0@, opt_v(t.1), opt_v(t.2), t.3@, opt_v(t.4))
            },
    );
    lemma_repeat_len(trans, n);
    lemma_repeat_pairs(trans, n);
    let inits = Seq::new(pda.initial@.len(), |k: int| initial_star(pda.initial@[k]@));
    let fins = Seq::new(pda.finals@.len(), |k: int| final_star(pda.finals@[k]@));
    assert forall|k: int| 0 <= k < npda_stars(pda, n).len() implies (#[trigger] npda_stars(pda, n)[k]).len() == 2 by {
        if k < inits.len() {
            assert(npda_stars(pda, n)[k] == inits[k]);
        } else if k < inits.len() + fins.len() {
            assert(npda_stars(pda, n)[k] == fins[k - inits.len()]);
        } else {
            assert(npda_stars(pda, n)[k] == repeat(trans, n)[k - inits.len() - fins.len()]);
        }
    }
}

proof fn lemma_repeat_pairs(s: Seq<Seq<TermV>>, n: nat)
    requires
        forall|k: int| 0 <= k < s.len() ==> (#[trigger] s[k]).len() == 2,
    ensures
        forall|k: int| 0 <= k < repeat(s, n).len() ==> (#[trigger] repeat(s, n)[k]).len() == 2,
    decreases n,
{
    if n > 0 {
        lemma_repeat_pairs(s, (n - 1) as nat);
        let r = repeat(s, (n - 1) as nat);
        assert forall|k: int| 0 <= k < repeat(s, n).len() implies (#[trigger] repeat(s, n)[k]).len() == 2 by {
            if k < r.len() {
                assert(repeat(s, n)[k] == r[k]);
            } else {
                assert(repeat(s, n)[k] == s[k - r.len()]);
            }
        }
    }
}

} // verus!
