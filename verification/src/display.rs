//! Written form of terms and stars: `+f(a, X)`, `[+f(X), -g(Y)]`.
//!
//! Machine variables are written `L<i>` and `R<i>`.
use vstd::prelude::*;
use vstd::string::StringExecFns;
use crate::term::{lemma_views_of, views_of, Polarity, Term, TermV, Var, VarV};
use crate::polarised::sign;

verus! {

broadcast use vstd::std_specs::vec::group_vec_axioms;

/// Decimal digits of a natural number.
pub open spec fn digits(n: nat) -> Seq<char>
    decreases n,
{
    if n < 10 {
        seq![digit_char(n)]
    } else {
        digits(n / 10).push(digit_char(n % 10))
    }
}

pub open spec fn digit_char(d: nat) -> char {
    if d == 0 {
        '0'
    } else if d == 1 {
        '1'
    } else if d == 2 {
        '2'
    } else if d == 3 {
        '3'
    } else if d == 4 {
        '4'
    } else if d == 5 {
        '5'
    } else if d == 6 {
        '6'
    } else if d == 7 {
        '7'
    } else if d == 8 {
        '8'
    } else {
        '9'
    }
}

pub open spec fn show_var(v: VarV) -> Seq<char> {
    match v {
        VarV::Named(s) => s,
        VarV::Left(i) => seq!['L'] + digits(i),
        VarV::Right(i) => seq!['R'] + digits(i),
    }
}

/// The written form of a term.
pub open spec fn show(t: TermV) -> Seq<char>
    decreases t,
{
    match t {
        TermV::Var(v) => show_var(v),
        TermV::App(f, p, args) => if args.len() == 0 {
            sign(p) + f
        } else {
            sign(p) + f + seq!['('] + show_args(args) + seq![')']
        },
    }
}

/// Written forms joined by `", "`.
pub open spec fn show_args(ts: Seq<TermV>) -> Seq<char>
    decreases ts,
{
    if ts.len() == 0 {
        Seq::empty()
    } else if ts.len() == 1 {
        show(ts[0])
    } else {
        show_args(ts.drop_last()) + seq![',', ' '] + show(ts.last())
    }
}

fn digit_str(d: usize) -> (r: &'static str)
    requires
        d < 10,
    ensures
        r@ == seq![digit_char(d as nat)],
{
    let r = if d == 0 {
        "0"
    } else if d == 1 {
        "1"
    } else if d == 2 {
        "2"
    } else if d == 3 {
        "3"
    } else if d == 4 {
        "4"
    } else if d == 5 {
        "5"
    } else if d == 6 {
        "6"
    } else if d == 7 {
        "7"
    } else if d == 8 {
        "8"
    } else {
        "9"
    };
    proof {
        reveal_strlit("0");
        reveal_strlit("1");
        reveal_strlit("2");
        reveal_strlit("3");
        reveal_strlit("4");
        reveal_strlit("5");
        reveal_strlit("6");
        reveal_strlit("7");
        reveal_strlit("8");
        reveal_strlit("9");
    }
    r
}

/// Decimal form of a number.
pub fn usize_text(n: usize) -> (r: String)
    ensures
        r@ == digits(n as nat),
    decreases n,
{
    if n < 10 {
        String::from_str(digit_str(n))
    } else {
        let head = usize_text(n / 10);
        head.concat(digit_str(n % 10))
    }
}

fn var_text(v: &Var) -> (r: String)
    ensures
        r@ == show_var(v@),
{
    match v {
        Var::Named(s) => s.clone(),
        Var::Left(i) => {
            let r = String::from_str("L").concat(usize_text(*i).as_str());
            proof {
                reveal_strlit("L");
            }
            r
        },
        Var::Right(i) => {
            let r = String::from_str("R").concat(usize_text(*i).as_str());
            proof {
                reveal_strlit("R");
            }
            r
        },
    }
}

impl Term {
    /// The written form of the term.
    pub fn text(&self) -> (r: String)
        ensures
            r@ == show(self@),
        decreases self,
    {
        match self {
            Term::Var(v) => var_text(v),
            Term::App(f, args) => {
                let sgn = match f.pol {
                    Polarity::Pos => "+",
                    Polarity::Neg => "-",
                    Polarity::Neutral => "",
                };
                proof {
                    reveal_strlit("+");
                    reveal_strlit("-");
                    reveal_strlit("");
                    lemma_views_of(args@);
                }
                let head = String::from_str(sgn).concat(f.name.as_str());
                if args.len() == 0 {
                    return head;
                }
                let mut inner = String::from_str("");
                let mut i: usize = 0;
                #[verifier::loop_isolation(false)]
                while i < args.len()
                    invariant
                        i <= args.len(),
                        views_of(args@).len() == args.len(),
                        forall|k: int| 0 <= k < args.len() ==> views_of(args@)[k] == args[k]@,
                        inner@ == show_args(views_of(args@).subrange(0, i as int)),
                    decreases args.len() - i,
                {
                    proof {
                        assert(decreases_to!(args => args[i as int]));
                    }
                    let piece = args[i].text();
                    let ghost sub = views_of(args@).subrange(0, i + 1);
                    proof {
                        assert(sub.drop_last() =~= views_of(args@).subrange(0, i as int));
                        assert(sub.last() == args[i as int]@);
                        reveal_strlit(", ");
                    }
                    if i == 0 {
                        inner = piece;
                        proof {
                            assert(sub.len() == 1);
                            assert(sub[0] == args[0]@);
                        }
                    } else {
                        inner = inner.concat(", ").concat(piece.as_str());
                        proof {
                            assert(", "@ =~= seq![',', ' ']);
                        }
                    }
                    i += 1;
                }
                proof {
                    assert(views_of(args@).subrange(0, i as int) =~= views_of(args@));
                    reveal_strlit("(");
                    reveal_strlit(")");
                }
                head.concat("(").concat(inner.as_str()).concat(")")
            },
        }
    }
}

/// The written form of a star: `[r₁, …, rₙ]`.
pub open spec fn show_star(s: Seq<TermV>) -> Seq<char> {
    seq!['['] + show_args(s) + seq![']']
}

pub fn star_text(s: &Vec<Term>) -> (r: String)
    ensures
        r@ == show_star(views_of(s@)),
{
    let mut inner = String::from_str("");
    let mut i: usize = 0;
    proof {
        reveal_strlit("");
        lemma_views_of(s@);
    }
    while i < s.len()
        invariant
            i <= s.len(),
            views_of(s@).len() == s.len(),
            forall|k: int| 0 <= k < s.len() ==> views_of(s@)[k] == s[k]@,
            inner@ == show_args(views_of(s@).subrange(0, i as int)),
        decreases s.len() - i,
    {
        let piece = s[i].text();
        let ghost sub = views_of(s@).subrange(0, i + 1);
        proof {
            assert(sub.drop_last() =~= views_of(s@).subrange(0, i as int));
            assert(sub.last() == s[i as int]@);
            reveal_strlit(", ");
        }
        if i == 0 {
            inner = piece;
            proof {
                assert(sub.len() == 1);
                assert(sub[0] == s[0]@);
            }
        } else {
            inner = inner.concat(", ").concat(piece.as_str());
            proof {
                assert(", "@ =~= seq![',', ' ']);
            }
        }
        i += 1;
    }
    proof {
        assert(views_of(s@).subrange(0, i as int) =~= views_of(s@));
        reveal_strlit("[");
        reveal_strlit("]");
    }
    String::from_str("[").concat(inner.as_str()).concat("]")
}

// ─────────────────────────────────────────────────────────────────────────
// Order of written forms
// ─────────────────────────────────────────────────────────────────────────

/// Lexicographic order of written forms, by character code (the order of
/// `String`s, whose UTF-8 bytes compare as their characters do).
pub open spec fn text_lt(a: Seq<char>, b: Seq<char>) -> bool
    decreases a.len(),
{
    if a.len() == 0 {
        b.len() > 0
    } else if b.len() == 0 {
        false
    } else if a[0] != b[0] {
        (a[0] as int) < (b[0] as int)
    } else {
        text_lt(a.drop_first(), b.drop_first())
    }
}

/// Lexicographic order of pairs of written forms.
pub open spec fn pair_lt(p: (Seq<char>, Seq<char>), q: (Seq<char>, Seq<char>)) -> bool {
    text_lt(p.0, q.0) || (p.0 == q.0 && text_lt(p.1, q.1))
}

/// Pairs in non-decreasing order.
pub open spec fn sorted_pairs(s: Seq<(Seq<char>, Seq<char>)>) -> bool {
    forall|i: int, j: int| 0 <= i < j < s.len() ==> !pair_lt(#[trigger] s[j], #[trigger] s[i])
}

/// The models of a list of pairs of strings.
pub open spec fn pair_views(s: Seq<(String, String)>) -> Seq<(Seq<char>, Seq<char>)> {
    Seq::new(s.len(), |i: int| (s[i].0@, s[i].1@))
}

pub proof fn lemma_text_lt_irreflexive(a: Seq<char>)
    ensures
        !text_lt(a, a),
    decreases a.len(),
{
    if a.len() > 0 {
        lemma_text_lt_irreflexive(a.drop_first());
    }
}

pub proof fn lemma_text_lt_asymmetric(a: Seq<char>, b: Seq<char>)
    ensures
        text_lt(a, b) ==> !text_lt(b, a),
    decreases a.len(),
{
    if a.len() > 0 && b.len() > 0 && a[0] == b[0] {
        lemma_text_lt_asymmetric(a.drop_first(), b.drop_first());
    }
}

pub proof fn lemma_text_lt_transitive(a: Seq<char>, b: Seq<char>, c: Seq<char>)
    ensures
        text_lt(a, b) && text_lt(b, c) ==> text_lt(a, c),
    decreases a.len(),
{
    if a.len() > 0 && b.len() > 0 && c.len() > 0 && a[0] == b[0] && b[0] == c[0] {
        lemma_text_lt_transitive(a.drop_first(), b.drop_first(), c.drop_first());
    }
}

pub proof fn lemma_text_lt_total(a: Seq<char>, b: Seq<char>)
    ensures
        a == b || text_lt(a, b) || text_lt(b, a),
    decreases a.len(),
{
    if a.len() > 0 && b.len() > 0 {
        if a[0] == b[0] {
            lemma_text_lt_total(a.drop_first(), b.drop_first());
            if a.drop_first() == b.drop_first() {
                assert(a =~= seq![a[0]] + a.drop_first());
                assert(b =~= seq![b[0]] + b.drop_first());
            }
        } else {
            assert((a[0] as int) != (b[0] as int));
        }
    } else if a.len() == 0 && b.len() == 0 {
        assert(a =~= b);
    }
}

proof fn lemma_pair_order(p: (Seq<char>, Seq<char>), q: (Seq<char>, Seq<char>), r: (Seq<char>, Seq<char>))
    ensures
        !pair_lt(p, p),
        pair_lt(p, q) ==> !pair_lt(q, p),
        pair_lt(p, q) && pair_lt(q, r) ==> pair_lt(p, r),
        p == q || pair_lt(p, q) || pair_lt(q, p),
{
    lemma_text_lt_irreflexive(p.0);
    lemma_text_lt_irreflexive(p.1);
    lemma_text_lt_asymmetric(p.0, q.0);
    lemma_text_lt_asymmetric(p.1, q.1);
    lemma_text_lt_transitive(p.0, q.0, r.0);
    lemma_text_lt_transitive(p.1, q.1, r.1);
    lemma_text_lt_total(p.0, q.0);
    lemma_text_lt_total(p.1, q.1);
}

/// `a` comes before `b`.
pub fn text_less(a: &String, b: &String) -> (r: bool)
    ensures
        r == text_lt(a@, b@),
{
    let x = crate::termkit::chars_of(a.as_str());
    let y = crate::termkit::chars_of(b.as_str());
    let mut i: usize = 0;
    proof {
        assert(x@.skip(0) =~= x@);
        assert(y@.skip(0) =~= y@);
    }
    while i < x.len() && i < y.len()
        invariant
            x@ == a@,
            y@ == b@,
            i <= x.len(),
            i <= y.len(),
            text_lt(a@, b@) == text_lt(x@.skip(i as int), y@.skip(i as int)),
        decreases x.len() - i,
    {
        let c = x[i];
        let d = y[i];
        proof {
            assert(x@.skip(i as int)[0] == c);
            assert(y@.skip(i as int)[0] == d);
        }
        if c != d {
            return c < d;
        }
        proof {
            assert(x@.skip(i as int).drop_first() =~= x@.skip(i + 1));
            assert(y@.skip(i as int).drop_first() =~= y@.skip(i + 1));
        }
        i += 1;
    }
    i == x.len() && i < y.len()
}

/// `p` comes before `q`.
fn pair_less(p: &(String, String), q: &(String, String)) -> (r: bool)
    ensures
        r == pair_lt((p.0@, p.1@), (q.0@, q.1@)),
{
    if text_less(&p.0, &q.0) {
        return true;
    }
    if text_less(&q.0, &p.0) {
        proof {
            lemma_text_lt_asymmetric(q.0@, p.0@);
        }
        return false;
    }
    proof {
        lemma_text_lt_total(p.0@, q.0@);
    }
    text_less(&p.1, &q.1)
}

/// Inserts a pair into a sorted list, keeping it sorted.
pub fn insert_pair(v: &mut Vec<(String, String)>, x: (String, String))
    requires
        sorted_pairs(pair_views(old(v)@)),
    ensures
        sorted_pairs(pair_views(final(v)@)),
        pair_views(final(v)@).to_multiset() == pair_views(old(v)@).to_multiset().insert((x.0@, x.1@)),
{
    let ghost s = pair_views(v@);
    let ghost xv = (x.0@, x.1@);
    let mut p: usize = 0;
    while p < v.len() && pair_less(&v[p], &x)
        invariant
            p <= v.len(),
            v@ == old(v)@,
            s == pair_views(v@),
            xv == (x.0@, x.1@),
            forall|k: int| 0 <= k < p ==> pair_lt(#[trigger] s[k], xv),
        decreases v.len() - p,
    {
        p += 1;
    }
    proof {
        if p < v.len() {
            assert(!pair_lt(s[p as int], xv));
            assert forall|k: int| p <= k < s.len() implies !pair_lt(#[trigger] s[k], xv) by {
                if k > p {
                    assert(!pair_lt(s[k], s[p as int]));
                    lemma_pair_order(s[k], xv, s[p as int]);
                    lemma_pair_order(xv, s[p as int], s[k]);
                    lemma_pair_order(s[k], s[p as int], xv);
                    if pair_lt(s[k], xv) {
                        if s[p as int] == xv {
                        } else {
                            assert(pair_lt(xv, s[p as int]));
                        }
                    }
                }
            }
        }
    }
    v.insert(p, x);
    proof {
        let t = pair_views(v@);
        assert(t =~= s.insert(p as int, xv));
        assert forall|i: int, j: int| 0 <= i < j < t.len() implies !pair_lt(#[trigger] t[j], #[trigger] t[i]) by {
            if j < p {
                assert(t[i] == s[i] && t[j] == s[j]);
            } else if j == p {
                assert(t[i] == s[i]);
                lemma_pair_order(s[i], xv, xv);
            } else if i == p {
                assert(t[j] == s[j - 1]);
            } else if i < p {
                assert(t[i] == s[i] && t[j] == s[j - 1]);
            } else {
                assert(t[i] == s[i - 1] && t[j] == s[j - 1]);
            }
        }
        vstd::seq_lib::to_multiset_insert(s, p as int, xv);
    }
}

pub open spec fn is_digit(c: char) -> bool {
    '0' <= c <= '9'
}

pub open spec fn digit_value(c: char) -> nat {
    (c as int - '0' as int) as nat
}

/// The number written by a string of decimal digits.
pub open spec fn digits_value(s: Seq<char>) -> nat
    decreases s.len(),
{
    if s.len() == 0 {
        0
    } else {
        digits_value(s.drop_last()) * 10 + digit_value(s.last())
    }
}

proof fn lemma_digit_char(d: nat)
    requires
        d < 10,
    ensures
        is_digit(digit_char(d)),
        digit_value(digit_char(d)) == d,
{
    assert('0' as int == 48 && '1' as int == 49 && '2' as int == 50 && '3' as int == 51 && '4' as int == 52
        && '5' as int == 53 && '6' as int == 54 && '7' as int == 55 && '8' as int == 56 && '9' as int == 57);
}

/// The decimal digits of `n` are digits and read back as `n`.
pub proof fn lemma_digits(n: nat)
    ensures
        digits(n).len() > 0,
        forall|k: int| 0 <= k < digits(n).len() ==> is_digit(#[trigger] digits(n)[k]),
        digits_value(digits(n)) == n,
    decreases n,
{
    if n >= 10 {
        lemma_digits(n / 10);
        lemma_digit_char(n % 10);
        let d = digits(n);
        assert(d.drop_last() =~= digits(n / 10));
        assert(d.last() == digit_char(n % 10));
        assert(digits_value(d) == digits_value(d.drop_last()) * 10 + digit_value(d.last()));
        assert(digits_value(d) == (n / 10) * 10 + n % 10);
        assert forall|k: int| 0 <= k < d.len() implies is_digit(#[trigger] d[k]) by {
            if k < d.len() - 1 {
                assert(d[k] == digits(n / 10)[k]);
            }
        }
    } else {
        lemma_digit_char(n);
        assert(digits(n).drop_last() =~= Seq::<char>::empty());
        assert(digits_value(Seq::<char>::empty()) == 0);
        assert(digits_value(digits(n)) == digits_value(digits(n).drop_last()) * 10 + digit_value(digits(n).last()));
    }
}

/// Different numbers have different decimal digits.
pub proof fn lemma_digits_injective(i: nat, j: nat)
    requires
        digits(i) == digits(j),
    ensures
        i == j,
{
    lemma_digits(i);
    lemma_digits(j);
}

} // verus!
