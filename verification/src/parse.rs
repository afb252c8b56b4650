//! A small surface syntax for constellations and its reader.
//!
//! ```text
//! constellation ::= star ( ('+' | ';' | newline)+ star )*
//! star          ::= '[' ']' | '[' term (',' term)* ']'
//! term          ::= polarity? name ( '(' term (',' term)* ')' )?
//! polarity      ::= '+' | '-' | '−'
//! ```
//!
//! Spaces, tabs, carriage returns and `#` comments (to the end of the line)
//! may stand between tokens. A name runs up to the next delimiter (ASCII
//! whitespace or one of `[ ] ( ) , ; # +`); a name without polarity whose
//! first character is an ASCII capital is a variable. Error positions are
//! byte offsets into the input with its surrounding whitespace removed.
use vstd::prelude::*;
use vstd::string::{StringExecFns, StrSliceExecFns};
use crate::term::{lemma_views_of, views_of, Polarity, Sym, Term, TermV, Var, VarV};
use crate::constellation::{cons_v, star_v, Constellation, Star};
use crate::subst::{apply, pairs_map, bindings_view, Substitution};
use crate::display::{digits, show, show_args, show_star, usize_text};
use crate::polarised::sign;
use crate::termkit::chars_of;

verus! {

broadcast use vstd::std_specs::vec::group_vec_axioms;

/// A reading failure: a byte offset and a message.
#[derive(Debug, Clone, PartialEq, Eq)]
pub struct ParseError {
    pub pos: usize,
    pub msg: String,
}

/// What a reader returns: the value and the next position, or a failure at a
/// position (in characters) with its message.
pub type Read<T> = Result<(T, nat), (nat, Seq<char>)>;

// ─────────────────────────────────────────────────────────────────────────
// Characters
// ─────────────────────────────────────────────────────────────────────────

/// Characters with the Unicode White_Space property.
pub open spec fn is_space(c: char) -> bool {
    ||| ('\u{9}' <= c <= '\u{d}')
    ||| c == ' '
    ||| c == '\u{85}'
    ||| c == '\u{a0}'
    ||| c == '\u{1680}'
    ||| ('\u{2000}' <= c <= '\u{200a}')
    ||| c == '\u{2028}'
    ||| c == '\u{2029}'
    ||| c == '\u{202f}'
    ||| c == '\u{205f}'
    ||| c == '\u{3000}'
}

/// The characters that end a name.
pub open spec fn is_delim(c: char) -> bool {
    ||| c == ' '
    ||| c == '\t'
    ||| c == '\n'
    ||| c == '\u{c}'
    ||| c == '\r'
    ||| c == '['
    ||| c == ']'
    ||| c == '('
    ||| c == ')'
    ||| c == ','
    ||| c == ';'
    ||| c == '#'
    ||| c == '+'
}

fn is_space_exec(c: char) -> (r: bool)
    ensures
        r == is_space(c),
{
    ('\u{9}' <= c && c <= '\u{d}') || c == ' ' || c == '\u{85}' || c == '\u{a0}' || c == '\u{1680}' || (
    '\u{2000}' <= c && c <= '\u{200a}') || c == '\u{2028}' || c == '\u{2029}' || c == '\u{202f}' || c
        == '\u{205f}' || c == '\u{3000}'
}

fn is_delim_exec(c: char) -> (r: bool)
    ensures
        r == is_delim(c),
{
    c == ' ' || c == '\t' || c == '\n' || c == '\u{c}' || c == '\r' || c == '[' || c == ']' || c == '('
        || c == ')' || c == ',' || c == ';' || c == '#' || c == '+'
}

/// Number of leading whitespace characters.
pub open spec fn lead(s: Seq<char>) -> nat
    decreases s.len(),
{
    if s.len() > 0 && is_space(s[0]) {
        1 + lead(s.drop_first())
    } else {
        0
    }
}

/// Number of trailing whitespace characters.
pub open spec fn trail(s: Seq<char>) -> nat
    decreases s.len(),
{
    if s.len() > 0 && is_space(s.last()) {
        1 + trail(s.drop_last())
    } else {
        0
    }
}

/// The string without its leading and trailing whitespace.
pub open spec fn trimmed(s: Seq<char>) -> Seq<char> {
    if lead(s) == s.len() {
        Seq::empty()
    } else {
        s.subrange(lead(s) as int, s.len() - trail(s))
    }
}

// ─────────────────────────────────────────────────────────────────────────
// The reader, as spec functions
// ─────────────────────────────────────────────────────────────────────────

/// Skip spaces, tabs, carriage returns and comments; a comment stops before
/// its newline.
pub open spec fn ws_from(s: Seq<char>, i: nat, comment: bool) -> nat
    decreases s.len() - i,
{
    if i >= s.len() {
        i
    } else if comment {
        if s[i as int] == '\n' {
            i
        } else {
            ws_from(s, i + 1, true)
        }
    } else if s[i as int] == ' ' || s[i as int] == '\t' || s[i as int] == '\r' {
        ws_from(s, i + 1, false)
    } else if s[i as int] == '#' {
        ws_from(s, i + 1, true)
    } else {
        i
    }
}

pub open spec fn ws(s: Seq<char>, i: nat) -> nat {
    ws_from(s, i, false)
}

/// The end of the name starting at `i`.
pub open spec fn ident_end(s: Seq<char>, i: nat) -> nat
    decreases s.len() - i,
{
    if i < s.len() && !is_delim(s[i as int]) {
        ident_end(s, i + 1)
    } else {
        i
    }
}

pub open spec fn at(s: Seq<char>, i: nat, c: char) -> bool {
    i < s.len() && s[i as int] == c
}

pub proof fn lemma_ws_from(s: Seq<char>, i: nat, comment: bool)
    ensures
        i <= s.len() ==> i <= ws_from(s, i, comment) <= s.len(),
        i > s.len() ==> ws_from(s, i, comment) == i,
    decreases s.len() - i,
{
    if i < s.len() {
        lemma_ws_from(s, i + 1, true);
        lemma_ws_from(s, i + 1, false);
    }
}

pub proof fn lemma_ident_end(s: Seq<char>, i: nat)
    ensures
        i <= s.len() ==> i <= ident_end(s, i) <= s.len(),
        i < s.len() && !is_delim(s[i as int]) ==> ident_end(s, i) > i,
        forall|k: int| i <= k < ident_end(s, i) ==> !is_delim(#[trigger] s[k]),
    decreases s.len() - i,
{
    if i < s.len() && !is_delim(s[i as int]) {
        lemma_ident_end(s, i + 1);
    }
}

pub open spec fn err_ident() -> Seq<char> {
    seq!['e','x','p','e','c','t','e','d',' ','a','n',' ','i','d','e','n','t','i','f','i','e','r']
}

pub open spec fn err_args() -> Seq<char> {
    seq!['e','x','p','e','c','t','e','d',' ','\'',',','\'',' ','o','r',' ','\'',')','\'',' ','i','n',' ','a','r','g','u','m','e','n','t',' ','l','i','s','t']
}

pub open spec fn err_open() -> Seq<char> {
    seq!['e','x','p','e','c','t','e','d',' ','\'','[','\'',' ','t','o',' ','b','e','g','i','n',' ','a',' ','s','t','a','r']
}

pub open spec fn err_star() -> Seq<char> {
    seq!['e','x','p','e','c','t','e','d',' ','\'',',','\'',' ','o','r',' ','\'',']','\'',' ','i','n',' ','s','t','a','r']
}

pub open spec fn err_sep() -> Seq<char> {
    seq!['e','x','p','e','c','t','e','d',' ','\'','+','\'',' ','(','o','r',' ','n','e','w','l','i','n','e',')',' ','b','e','t','w','e','e','n',' ','s','t','a','r','s']
}

pub open spec fn err_trailing() -> Seq<char> {
    seq!['u','n','e','x','p','e','c','t','e','d',' ','t','r','a','i','l','i','n','g',' ','i','n','p','u','t']
}

pub open spec fn err_single() -> Seq<char> {
    seq!['e','x','p','e','c','t','e','d',' ','a',' ','s','i','n','g','l','e',' ','s','t','a','r']
}

/// A term read from position `i`.
pub open spec fn read_term(s: Seq<char>, i: nat) -> Read<TermV>
    decreases s.len() - i, 0nat,
{
    if i > s.len() {
        Err((i, err_ident()))
    } else {
        let i1 = ws(s, i);
        let (pol, i2) = if at(s, i1, '+') {
            (Polarity::Pos, i1 + 1)
        } else if at(s, i1, '-') || at(s, i1, '−') {
            (Polarity::Neg, i1 + 1)
        } else {
            (Polarity::Neutral, i1)
        };
        let i3 = ws(s, i2);
        if !(i3 < s.len() && !is_delim(s[i3 as int]) && s[i3 as int] != '-') {
            Err((i3, err_ident()))
        } else {
            let e = ident_end(s, i3);
            let name = s.subrange(i3 as int, e as int);
            if pol == Polarity::Neutral && 'A' <= s[i3 as int] <= 'Z' {
                Ok((TermV::Var(VarV::Named(name)), e))
            } else {
                let i4 = ws(s, e);
                if at(s, i4, '(') {
                    proof {
                        lemma_ws_from(s, i, false);
                        lemma_ws_from(s, i2, false);
                        lemma_ident_end(s, i3);
                        lemma_ws_from(s, e, false);
                    }
                    match read_args(s, i4 + 1, Seq::empty()) {
                        Ok((args, j)) => Ok((TermV::App(name, pol, args), j)),
                        Err(x) => Err(x),
                    }
                } else {
                    Ok((TermV::App(name, pol, Seq::empty()), i4))
                }
            }
        }
    }
}

/// The rest of an argument list from position `j`, after the arguments `acc`.
pub open spec fn read_args(s: Seq<char>, j: nat, acc: Seq<TermV>) -> Read<Seq<TermV>>
    decreases s.len() - j, 1nat,
{
    if j > s.len() {
        Err((j, err_args()))
    } else {
        let j1 = ws(s, j);
        if at(s, j1, ')') {
            Ok((acc, j1 + 1))
        } else {
            proof {
                lemma_ws_from(s, j, false);
            }
            match read_term(s, j1) {
                Err(x) => Err(x),
                Ok((t, k)) => {
                    if k <= j1 {
                        Err((k, err_args()))
                    } else {
                        let k1 = ws(s, k);
                        proof {
                            lemma_ws_from(s, k, false);
                        }
                        if at(s, k1, ',') {
                            read_args(s, k1 + 1, acc.push(t))
                        } else if at(s, k1, ')') {
                            Ok((acc.push(t), k1 + 1))
                        } else {
                            Err((k1, err_args()))
                        }
                    }
                },
            }
        }
    }
}

/// The rest of a star from position `j`, after the rays `acc`.
pub open spec fn read_rays(s: Seq<char>, j: nat, acc: Seq<TermV>) -> Read<Seq<TermV>>
    decreases s.len() - j,
{
    if j > s.len() {
        Err((j, err_star()))
    } else {
        match read_term(s, j) {
            Err(x) => Err(x),
            Ok((t, k)) => {
                if k <= j {
                    Err((k, err_star()))
                } else {
                    let k1 = ws(s, k);
                    proof {
                        lemma_ws_from(s, k, false);
                    }
                    if at(s, k1, ',') {
                        read_rays(s, k1 + 1, acc.push(t))
                    } else if at(s, k1, ']') {
                        Ok((acc.push(t), k1 + 1))
                    } else {
                        Err((k1, err_star()))
                    }
                }
            },
        }
    }
}

/// A star read from position `i`.
pub open spec fn read_star(s: Seq<char>, i: nat) -> Read<Seq<TermV>> {
    let i1 = ws(s, i);
    if !at(s, i1, '[') {
        Err((i1, err_open()))
    } else {
        let i2 = ws(s, i1 + 1);
        if at(s, i2, ']') {
            Ok((Seq::empty(), i2 + 1))
        } else {
            read_rays(s, i2, Seq::empty())
        }
    }
}

/// Skip separators (`+`, `;`, newlines) and the whitespace round them; tells
/// whether one was seen.
pub open spec fn read_seps(s: Seq<char>, i: nat, saw: bool) -> (nat, bool)
    decreases s.len() - i,
{
    if i > s.len() {
        (i, saw)
    } else {
        let i1 = ws(s, i);
        proof {
            lemma_ws_from(s, i, false);
        }
        if at(s, i1, '+') || at(s, i1, ';') || at(s, i1, '\n') {
            read_seps(s, i1 + 1, true)
        } else {
            (i1, saw)
        }
    }
}

/// Skip whitespace and newlines.
pub open spec fn skip_lines(s: Seq<char>, i: nat) -> nat
    decreases s.len() - i,
{
    if i > s.len() {
        i
    } else {
        let i1 = ws(s, i);
        proof {
            lemma_ws_from(s, i, false);
        }
        if at(s, i1, '\n') {
            skip_lines(s, i1 + 1)
        } else {
            i1
        }
    }
}

/// The rest of a constellation from position `i`, after the stars `acc`.
pub open spec fn read_stars(s: Seq<char>, i: nat, acc: Seq<Seq<TermV>>) -> Read<Seq<Seq<TermV>>>
    decreases s.len() - i,
{
    match read_star(s, i) {
        Err(x) => Err(x),
        Ok((st, k)) => {
            let acc2 = acc.push(st);
            let (k1, saw) = read_seps(s, k, false);
            let k2 = skip_lines(s, k1);
            if k2 >= s.len() {
                Ok((acc2, k2))
            } else if !saw && !at(s, k2, '[') {
                Err((k2, err_sep()))
            } else if !at(s, k2, '[') {
                Ok((acc2, k2))
            } else if k2 <= i {
                Err((k2, err_sep()))
            } else {
                read_stars(s, k2, acc2)
            }
        },
    }
}

/// A whole constellation, read from the trimmed text.
pub open spec fn read_constellation(t: Seq<char>) -> Read<Seq<Seq<TermV>>> {
    if t.len() == 0 {
        Ok((Seq::empty(), 0))
    } else {
        match read_stars(t, 0, Seq::empty()) {
            Err(x) => Err(x),
            Ok((c, i)) => {
                let j = skip_lines(t, i);
                if j >= t.len() {
                    Ok((c, j))
                } else {
                    Err((j, err_trailing()))
                }
            },
        }
    }
}

/// Byte length of the first `i` characters.
pub open spec fn byte_offset(t: Seq<char>, i: nat) -> nat {
    vstd::utf8::encode_utf8(t.take(if i <= t.len() { i as int } else { t.len() as int })).len()
}

/// What `parse_constellation` gives for a text.
pub open spec fn parsed(src: Seq<char>) -> Result<Seq<Seq<TermV>>, (nat, Seq<char>)> {
    let t = trimmed(src);
    match read_constellation(t) {
        Ok((c, _)) => Ok(c),
        Err((p, m)) => Err(((byte_offset(t, p) as usize) as nat, m)),
    }
}


// ─────────────────────────────────────────────────────────────────────────
// The reader
// ─────────────────────────────────────────────────────────────────────────

type Res<T> = Result<(T, usize), (usize, &'static str)>;

fn ws_exec(s: &Vec<char>, i: usize) -> (r: usize)
    requires
        i <= s.len(),
    ensures
        r == ws(s@, i as nat),
        i <= r <= s.len(),
{
    let mut j = i;
    let mut comment = false;
    let mut done = false;
    while j < s.len() && !done
        invariant
            i <= j <= s.len(),
            ws(s@, i as nat) == ws_from(s@, j as nat, comment),
            done ==> ws_from(s@, j as nat, comment) == j,
        decreases s.len() - j, if done { 0int } else { 1int },
    {
        let c = s[j];
        if comment {
            if c == '\n' {
                done = true;
            } else {
                j += 1;
            }
        } else if c == ' ' || c == '\t' || c == '\r' {
            j += 1;
        } else if c == '#' {
            comment = true;
            j += 1;
        } else {
            done = true;
        }
    }
    j
}

fn ident_end_exec(s: &Vec<char>, i: usize) -> (r: usize)
    requires
        i <= s.len(),
    ensures
        r == ident_end(s@, i as nat),
{
    let mut j = i;
    while j < s.len() && !is_delim_exec(s[j])
        invariant
            i <= j <= s.len(),
            ident_end(s@, i as nat) == ident_end(s@, j as nat),
        decreases s.len() - j,
    {
        j += 1;
    }
    j
}

fn at_exec(s: &Vec<char>, i: usize, c: char) -> (r: bool)
    ensures
        r == at(s@, i as nat, c),
{
    i < s.len() && s[i] == c
}

fn msg_ident() -> (r: &'static str)
    ensures
        r@ == err_ident(),
{
    proof {
        reveal_strlit("expected an identifier");
    }
    let r = "expected an identifier";
    assert(r@ =~= err_ident());
    r
}

fn msg_args() -> (r: &'static str)
    ensures
        r@ == err_args(),
{
    proof {
        reveal_strlit("expected ',' or ')' in argument list");
    }
    let r = "expected ',' or ')' in argument list";
    assert(r@ =~= err_args());
    r
}

fn msg_open() -> (r: &'static str)
    ensures
        r@ == err_open(),
{
    proof {
        reveal_strlit("expected '[' to begin a star");
    }
    let r = "expected '[' to begin a star";
    assert(r@ =~= err_open());
    r
}

fn msg_star() -> (r: &'static str)
    ensures
        r@ == err_star(),
{
    proof {
        reveal_strlit("expected ',' or ']' in star");
    }
    let r = "expected ',' or ']' in star";
    assert(r@ =~= err_star());
    r
}

fn msg_sep() -> (r: &'static str)
    ensures
        r@ == err_sep(),
{
    proof {
        reveal_strlit("expected '+' (or newline) between stars");
    }
    let r = "expected '+' (or newline) between stars";
    assert(r@ =~= err_sep());
    r
}

fn msg_trailing() -> (r: &'static str)
    ensures
        r@ == err_trailing(),
{
    proof {
        reveal_strlit("unexpected trailing input");
    }
    let r = "unexpected trailing input";
    assert(r@ =~= err_trailing());
    r
}

fn msg_single() -> (r: &'static str)
    ensures
        r@ == err_single(),
{
    proof {
        reveal_strlit("expected a single star");
    }
    let r = "expected a single star";
    assert(r@ =~= err_single());
    r
}

proof fn lemma_push_views(acc: Seq<Term>, t: Term)
    ensures
        views_of(acc.push(t)) == views_of(acc).push(t@),
{
    assert(acc.push(t).drop_last() =~= acc);
}

fn read_term_exec(s: &Vec<char>, t: &str, i: usize) -> (r: Res<Term>)
    requires
        i <= s.len(),
        t@ == s@,
    ensures
        match r {
            Ok((term, j)) => read_term(s@, i as nat) == Ok::<(TermV, nat), (nat, Seq<char>)>((term@, j as nat)),
            Err((p, m)) => read_term(s@, i as nat) == Err::<(TermV, nat), (nat, Seq<char>)>((p as nat, m@)),
        },
    decreases s.len() - i, 0nat,
{
    let i1 = ws_exec(s, i);
    let (pol, i2) = if at_exec(s, i1, '+') {
        (Polarity::Pos, i1 + 1)
    } else if at_exec(s, i1, '-') || at_exec(s, i1, '−') {
        (Polarity::Neg, i1 + 1)
    } else {
        (Polarity::Neutral, i1)
    };
    let i3 = ws_exec(s, i2);
    if !(i3 < s.len() && !is_delim_exec(s[i3]) && s[i3] != '-') {
        return Err((i3, msg_ident()));
    }
    let e = ident_end_exec(s, i3);
    proof {
        lemma_ident_end(s@, i3 as nat);
    }
    let name = String::from_str(t.substring_char(i3, e));
    if pol == Polarity::Neutral && 'A' <= s[i3] && s[i3] <= 'Z' {
        return Ok((Term::Var(Var::Named(name)), e));
    }
    let i4 = ws_exec(s, e);
    if at_exec(s, i4, '(') {
        proof {
            lemma_ws_from(s@, i as nat, false);
            lemma_ws_from(s@, i2 as nat, false);
            lemma_ws_from(s@, e as nat, false);
        }
        let acc: Vec<Term> = Vec::new();
        proof {
            assert(views_of(acc@) =~= Seq::<TermV>::empty());
        }
        match read_args_exec(s, t, i4 + 1, acc) {
            Ok((args, j)) => Ok((Term::App(Sym { name, pol }, args), j)),
            Err(x) => Err(x),
        }
    } else {
        let args: Vec<Term> = Vec::new();
        proof {
            assert(views_of(args@) =~= Seq::<TermV>::empty());
        }
        Ok((Term::App(Sym { name, pol }, args), i4))
    }
}

fn read_args_exec(s: &Vec<char>, t: &str, j: usize, acc: Vec<Term>) -> (r: Res<Vec<Term>>)
    requires
        j <= s.len(),
        t@ == s@,
    ensures
        match r {
            Ok((args, k)) => read_args(s@, j as nat, views_of(acc@)) == Ok::<(Seq<TermV>, nat), (nat, Seq<char>)>((views_of(args@), k as nat)),
            Err((p, m)) => read_args(s@, j as nat, views_of(acc@)) == Err::<(Seq<TermV>, nat), (nat, Seq<char>)>((p as nat, m@)),
        },
    decreases s.len() - j, 1nat,
{
    let j1 = ws_exec(s, j);
    if at_exec(s, j1, ')') {
        return Ok((acc, j1 + 1));
    }
    match read_term_exec(s, t, j1) {
        Err(x) => Err(x),
        Ok((term, k)) => {
            if k <= j1 {
                return Err((k, msg_args()));
            }
            if k > s.len() {
                proof {
                    lemma_ws_from(s@, k as nat, false);
                }
                return Err((k, msg_args()));
            }
            let k1 = ws_exec(s, k);
            let mut acc2 = acc;
            let ghost before = acc2@;
            acc2.push(term);
            proof {
                lemma_push_views(before, term);
            }
            if at_exec(s, k1, ',') {
                read_args_exec(s, t, k1 + 1, acc2)
            } else if at_exec(s, k1, ')') {
                Ok((acc2, k1 + 1))
            } else {
                Err((k1, msg_args()))
            }
        },
    }
}

fn read_rays_exec(s: &Vec<char>, t: &str, j: usize, acc: Vec<Term>) -> (r: Res<Vec<Term>>)
    requires
        j <= s.len(),
        t@ == s@,
    ensures
        match r {
            Ok((rays, k)) => read_rays(s@, j as nat, views_of(acc@)) == Ok::<(Seq<TermV>, nat), (nat, Seq<char>)>((views_of(rays@), k as nat)),
            Err((p, m)) => read_rays(s@, j as nat, views_of(acc@)) == Err::<(Seq<TermV>, nat), (nat, Seq<char>)>((p as nat, m@)),
        },
    decreases s.len() - j,
{
    match read_term_exec(s, t, j) {
        Err(x) => Err(x),
        Ok((term, k)) => {
            if k <= j {
                return Err((k, msg_star()));
            }
            if k > s.len() {
                proof {
                    lemma_ws_from(s@, k as nat, false);
                }
                return Err((k, msg_star()));
            }
            let k1 = ws_exec(s, k);
            let mut acc2 = acc;
            let ghost before = acc2@;
            acc2.push(term);
            proof {
                lemma_push_views(before, term);
            }
            if at_exec(s, k1, ',') {
                read_rays_exec(s, t, k1 + 1, acc2)
            } else if at_exec(s, k1, ']') {
                Ok((acc2, k1 + 1))
            } else {
                Err((k1, msg_star()))
            }
        },
    }
}

fn read_star_exec(s: &Vec<char>, t: &str, i: usize) -> (r: Res<Vec<Term>>)
    requires
        i <= s.len(),
        t@ == s@,
    ensures
        match r {
            Ok((rays, k)) => read_star(s@, i as nat) == Ok::<(Seq<TermV>, nat), (nat, Seq<char>)>((views_of(rays@), k as nat)),
            Err((p, m)) => read_star(s@, i as nat) == Err::<(Seq<TermV>, nat), (nat, Seq<char>)>((p as nat, m@)),
        },
{
    let i1 = ws_exec(s, i);
    if !at_exec(s, i1, '[') {
        return Err((i1, msg_open()));
    }
    let i2 = ws_exec(s, i1 + 1);
    let acc: Vec<Term> = Vec::new();
    proof {
        assert(views_of(acc@) =~= Seq::<TermV>::empty());
    }
    if at_exec(s, i2, ']') {
        return Ok((acc, i2 + 1));
    }
    read_rays_exec(s, t, i2, acc)
}

fn read_seps_exec(s: &Vec<char>, i: usize) -> (r: (usize, bool))
    requires
        i <= s.len(),
    ensures
        (r.0 as nat, r.1) == read_seps(s@, i as nat, false),
        r.0 <= s.len(),
{
    let mut j = i;
    let mut saw = false;
    loop
        invariant
            j <= s.len(),
            read_seps(s@, i as nat, false) == read_seps(s@, j as nat, saw),
        decreases s.len() - j,
    {
        let j1 = ws_exec(s, j);
        if at_exec(s, j1, '+') || at_exec(s, j1, ';') || at_exec(s, j1, '\n') {
            j = j1 + 1;
            saw = true;
        } else {
            return (j1, saw);
        }
    }
}

fn skip_lines_exec(s: &Vec<char>, i: usize) -> (r: usize)
    requires
        i <= s.len(),
    ensures
        r == skip_lines(s@, i as nat),
        r <= s.len(),
{
    let mut j = i;
    loop
        invariant
            j <= s.len(),
            skip_lines(s@, i as nat) == skip_lines(s@, j as nat),
        decreases s.len() - j,
    {
        let j1 = ws_exec(s, j);
        if at_exec(s, j1, '\n') {
            j = j1 + 1;
        } else {
            return j1;
        }
    }
}

proof fn lemma_push_cons(acc: Seq<Vec<Term>>, st: Vec<Term>)
    ensures
        cons_v(acc.push(st)) == cons_v(acc).push(views_of(st@)),
{
    assert(cons_v(acc.push(st)) =~= cons_v(acc).push(views_of(st@)));
}

fn read_stars_exec(s: &Vec<char>, t: &str, i: usize, acc: Vec<Star>) -> (r: Res<Vec<Star>>)
    requires
        i <= s.len(),
        t@ == s@,
    ensures
        match r {
            Ok((c, k)) => read_stars(s@, i as nat, cons_v(acc@)) == Ok::<(Seq<Seq<TermV>>, nat), (nat, Seq<char>)>((cons_v(c@), k as nat)),
            Err((p, m)) => read_stars(s@, i as nat, cons_v(acc@)) == Err::<(Seq<Seq<TermV>>, nat), (nat, Seq<char>)>((p as nat, m@)),
        },
    decreases s.len() - i,
{
    match read_star_exec(s, t, i) {
        Err(x) => Err(x),
        Ok((st, k)) => {
            let mut acc2 = acc;
            let ghost before = acc2@;
            proof {
                lemma_push_cons(before, st);
            }
            acc2.push(st);
            if k > s.len() {
                assert(read_seps(s@, k as nat, false) == (k as nat, false));
                assert(skip_lines(s@, k as nat) == k as nat);
                return Ok((acc2, k));
            }
            let (k1, saw) = read_seps_exec(s, k);
            let k2 = skip_lines_exec(s, k1);
            if k2 >= s.len() {
                Ok((acc2, k2))
            } else if !saw && !at_exec(s, k2, '[') {
                Err((k2, msg_sep()))
            } else if !at_exec(s, k2, '[') {
                Ok((acc2, k2))
            } else if k2 <= i {
                Err((k2, msg_sep()))
            } else {
                read_stars_exec(s, t, k2, acc2)
            }
        },
    }
}

/// Leading and trailing whitespace removed.
fn trim_exec(src: &str) -> (r: &str)
    ensures
        r@ == trimmed(src@),
{
    let cs = chars_of(src);
    let n = cs.len();
    let mut a: usize = 0;
    assert(src@.skip(0) =~= src@);
    while a < n && is_space_exec(cs[a])
        invariant
            a <= n,
            n == cs.len(),
            cs@ == src@,
            lead(src@) == a + lead(src@.skip(a as int)),
        decreases n - a,
    {
        assert(src@.skip(a as int).drop_first() =~= src@.skip(a + 1));
        a += 1;
    }
    assert(lead(src@.skip(a as int)) == 0);
    let mut b: usize = n;
    assert(src@.take(n as int) =~= src@);
    while b > a && is_space_exec(cs[b - 1])
        invariant
            a <= b <= n,
            n == cs.len(),
            cs@ == src@,
            lead(src@) == a,
            a < n ==> !is_space(src@[a as int]),
            a < n ==> b > a,
            trail(src@) == (n - b) + trail(src@.take(b as int)),
        decreases b,
    {
        assert(src@.take(b as int).drop_last() =~= src@.take(b - 1));
        b -= 1;
    }
    proof {
        if a == n {
            assert(lead(src@) == src@.len());
        } else {
            assert(b > a);
            assert(!is_space(src@.take(b as int).last()));
            assert(trail(src@.take(b as int)) == 0);
        }
    }
    let r = src.substring_char(a, b);
    assert(r@ =~= trimmed(src@));
    r
}

/// Reads a constellation exactly as written (no variable is renamed).
pub fn parse_constellation(src: &str) -> (r: Result<Constellation, ParseError>)
    ensures
        match r {
            Ok(c) => parsed(src@) == Ok::<Seq<Seq<TermV>>, (nat, Seq<char>)>(cons_v(c@)),
            Err(e) => parsed(src@) == Err::<Seq<Seq<TermV>>, (nat, Seq<char>)>((e.pos as nat, e.msg@)),
        },
{
    let t = trim_exec(src);
    let s = chars_of(t);
    if s.len() == 0 {
        let empty: Vec<Star> = Vec::new();
        assert(cons_v(empty@) =~= Seq::<Seq<TermV>>::empty());
        return Ok(empty);
    }
    let acc: Vec<Star> = Vec::new();
    assert(cons_v(acc@) =~= Seq::<Seq<TermV>>::empty());
    match read_stars_exec(&s, t, 0, acc) {
        Err((p, m)) => {
            let q = if p <= s.len() {
                p
            } else {
                s.len()
            };
            let prefix = t.substring_char(0, q);
            let pos = prefix.len();
            proof {
                assert(t@.subrange(0, q as int) =~= t@.take(q as int));
            }
            Err(ParseError { pos, msg: String::from_str(m) })
        },
        Ok((c, i)) => {
            if i > s.len() {
                proof {
                    lemma_skip_lines_bound(s@, i as nat);
                }
                assert(read_constellation(s@) == Ok::<(Seq<Seq<TermV>>, nat), (nat, Seq<char>)>((cons_v(c@), i as nat)));
                assert(s@ == trimmed(src@));
                return Ok(c);
            }
            let j = skip_lines_exec(&s, i);
            if j >= s.len() {
                assert(read_constellation(s@) == Ok::<(Seq<Seq<TermV>>, nat), (nat, Seq<char>)>((cons_v(c@), j as nat)));
                assert(s@ == trimmed(src@));
                assert(parsed(src@) == Ok::<Seq<Seq<TermV>>, (nat, Seq<char>)>(cons_v(c@)));
                Ok(c)
            } else {
                let m = msg_trailing();
                let prefix = t.substring_char(0, j);
                let pos = prefix.len();
                proof {
                    assert(t@.subrange(0, j as int) =~= t@.take(j as int));
                }
                Err(ParseError { pos, msg: String::from_str(m) })
            }
        },
    }
}

proof fn lemma_skip_lines_bound(s: Seq<char>, i: nat)
    requires
        i > s.len(),
    ensures
        skip_lines(s, i) == i,
{
}


/// What `parse_star` gives: the empty star for an empty text, the one star of
/// a one-star text, a failure otherwise.
pub open spec fn parsed_star(src: Seq<char>) -> Result<Seq<TermV>, (nat, Seq<char>)> {
    match parsed(src) {
        Err(e) => Err(e),
        Ok(c) => if c.len() == 0 {
            Ok(Seq::empty())
        } else if c.len() == 1 {
            Ok(c[0])
        } else {
            Err((0, err_single()))
        },
    }
}

/// Reads a single star.
pub fn parse_star(src: &str) -> (r: Result<Star, ParseError>)
    ensures
        match r {
            Ok(st) => parsed_star(src@) == Ok::<Seq<TermV>, (nat, Seq<char>)>(star_v(st@)),
            Err(e) => parsed_star(src@) == Err::<Seq<TermV>, (nat, Seq<char>)>((e.pos as nat, e.msg@)),
        },
{
    match parse_constellation(src) {
        Err(e) => Err(e),
        Ok(c) => {
            if c.len() == 0 {
                let empty: Vec<Term> = Vec::new();
                assert(star_v(empty@) =~= Seq::<TermV>::empty());
                Ok(empty)
            } else if c.len() == 1 {
                let mut c = c;
                let st = c.pop().unwrap();
                Ok(st)
            } else {
                Err(ParseError { pos: 0, msg: String::from_str(msg_single()) })
            }
        },
    }
}

/// `x` occurs in a star before star `i`.
pub open spec fn shared_earlier(c: Seq<Seq<TermV>>, i: int, x: VarV) -> bool {
    exists|j: int| 0 <= j < i && (#[trigger] crate::term::tvars_seq(c[j])).contains(x)
}

/// The name `x_s<i>` given to a variable of star `i`.
pub open spec fn renamed_var(x: VarV, i: nat) -> VarV {
    match x {
        VarV::Named(n) => VarV::Named(n + seq!['_', 's'] + digits(i)),
        _ => x,
    }
}

/// The renaming of star `i`: each of its variables that occurs in an earlier
/// star gets the name `x_s<i>`.
pub open spec fn psi_map(c: Seq<Seq<TermV>>, i: int) -> Map<VarV, TermV> {
    Map::new(
        |x: VarV| crate::term::tvars_seq(c[i]).contains(x) && shared_earlier(c, i, x),
        |x: VarV| TermV::Var(renamed_var(x, i as nat)),
    )
}

/// The stars with the variables they share renamed apart: a variable keeps
/// its name in the first star it occurs in and is renamed in each later one.
pub open spec fn disambiguated(c: Seq<Seq<TermV>>) -> Seq<Seq<TermV>> {
    Seq::new(c.len(), |i: int| c[i].map_values(|t: TermV| apply(t, psi_map(c, i))))
}

/// What `parse_psi` gives.
pub open spec fn parsed_psi(src: Seq<char>) -> Result<Seq<Seq<TermV>>, (nat, Seq<char>)> {
    match parsed(src) {
        Ok(c) => Ok(disambiguated(c)),
        Err(e) => Err(e),
    }
}

fn renamed_var_exec(x: &Var, i: usize) -> (r: Var)
    ensures
        r@ == renamed_var(x@, i as nat),
{
    proof {
        reveal_strlit("_s");
        assert("_s"@ =~= seq!['_', 's']);
    }
    match x {
        Var::Named(n) => {
            let s = n.clone().concat("_s");
            let d = usize_text(i);
            let s = s.concat(d.as_str());
            Var::Named(s)
        },
        Var::Left(k) => Var::Left(*k),
        Var::Right(k) => Var::Right(*k),
    }
}

proof fn lemma_seq_push_contains<A>(s: Seq<A>, a: A)
    ensures
        forall|y: A| #[trigger] s.push(a).contains(y) <==> (s.contains(y) || y == a),
{
    assert forall|y: A| #[trigger] s.push(a).contains(y) <==> (s.contains(y) || y == a) by {
        if s.push(a).contains(y) {
            let k = choose|k: int| 0 <= k < s.len() + 1 && #[trigger] s.push(a)[k] == y;
            if k < s.len() {
                assert(s[k] == y);
            }
        }
        if s.contains(y) {
            let k = choose|k: int| 0 <= k < s.len() && #[trigger] s[k] == y;
            assert(s.push(a)[k] == y);
        }
        if y == a {
            assert(s.push(a)[s.len() as int] == y);
        }
    }
}

/// The image of `x` under the renaming built from the variables `s` of star `i`.
pub open spec fn ren_target(s: Seq<VarV>, c: Seq<Seq<TermV>>, i: int, x: VarV) -> TermV {
    if s.contains(x) && shared_earlier(c, i, x) {
        TermV::Var(renamed_var(x, i as nat))
    } else {
        TermV::Var(x)
    }
}

fn disambiguate(raw: Vec<Star>) -> (r: Vec<Star>)
    ensures
        cons_v(r@) == disambiguated(cons_v(raw@)),
{
    let ghost c = cons_v(raw@);
    let mut lists: Vec<Vec<Var>> = Vec::new();
    let mut i: usize = 0;
    while i < raw.len()
        invariant
            i <= raw.len(),
            c == cons_v(raw@),
            lists.len() == i,
            forall|k: int| 0 <= k < i ==> {
                &&& crate::alpha::no_dup(crate::alpha::var_views((#[trigger] lists@[k])@))
                &&& forall|x: VarV| crate::alpha::var_views(lists@[k]@).contains(x) <==> crate::term::tvars_seq(c[k]).contains(x)
            },
        decreases raw.len() - i,
    {
        let vs = crate::alpha::star_var_list(&raw[i]);
        proof {
            crate::alpha::lemma_add_vars_seq(Seq::empty(), views_of(raw@[i as int]@));
            assert(crate::alpha::no_dup(Seq::<VarV>::empty()));
        }
        lists.push(vs);
        i += 1;
    }
    let mut out: Vec<Star> = Vec::new();
    let mut i: usize = 0;
    while i < raw.len()
        invariant
            i <= raw.len(),
            c == cons_v(raw@),
            lists.len() == raw.len(),
            forall|k: int| 0 <= k < raw.len() ==> {
                &&& crate::alpha::no_dup(crate::alpha::var_views((#[trigger] lists@[k])@))
                &&& forall|x: VarV| crate::alpha::var_views(lists@[k]@).contains(x) <==> crate::term::tvars_seq(c[k]).contains(x)
            },
            out.len() == i,
            forall|k: int| 0 <= k < i ==> #[trigger] cons_v(out@)[k] == disambiguated(c)[k],
        decreases raw.len() - i,
    {
        proof {
            lemma_views_of(raw@[i as int]@);
        }
        let vs = &lists[i];
        let ghost vv = crate::alpha::var_views(vs@);
        let mut pairs: Vec<(Var, Term)> = Vec::new();
        let mut k: usize = 0;
        #[verifier::loop_isolation(false)]
        while k < vs.len()
            invariant
                k <= vs.len(),
                vv == crate::alpha::var_views(vs@),
                forall|x: VarV| #[trigger] apply(TermV::Var(x), pairs_map(bindings_view(pairs@))) == ren_target(vv.take(k as int), c, i as int, x),
            decreases vs.len() - k,
        {
            let v = &vs[k];
            let mut shared = false;
            let mut j: usize = 0;
            #[verifier::loop_isolation(false)]
            while j < i
                invariant
                    j <= i,
                    i < lists.len(),
                    shared == exists|q: int| 0 <= q < j && (#[trigger] crate::term::tvars_seq(c[q])).contains(v@),
                decreases i - j,
            {
                let hit = crate::alpha::contains_var(&lists[j], v);
                proof {
                    let lj = lists@[j as int];
                    assert(crate::alpha::var_views(lj@).contains(v@) <==> crate::term::tvars_seq(c[j as int]).contains(v@));
                }
                if hit {
                    shared = true;
                }
                j += 1;
            }
            let ghost before = pairs@;
            proof {
                assert(vv[k as int] == v@);
                assert(vv.take(k + 1) =~= vv.take(k as int).push(v@));
                lemma_seq_push_contains(vv.take(k as int), v@);
                assert(shared == shared_earlier(c, i as int, v@));
            }
            if shared {
                let nv = renamed_var_exec(v, i);
                pairs.push((v.dup(), Term::Var(nv)));
                proof {
                    let nb = bindings_view(pairs@);
                    assert(nb =~= bindings_view(before).push((v@, TermV::Var(renamed_var(v@, i as nat)))));
                    assert(nb.drop_last() =~= bindings_view(before));
                    assert(pairs_map(nb) == pairs_map(bindings_view(before)).insert(v@, TermV::Var(renamed_var(v@, i as nat))));
                }
            }
            proof {
                assert forall|x: VarV| #[trigger] apply(TermV::Var(x), pairs_map(bindings_view(pairs@))) == ren_target(vv.take(k + 1), c, i as int, x) by {
                    assert(apply(TermV::Var(x), pairs_map(bindings_view(before))) == ren_target(vv.take(k as int), c, i as int, x));
                    if x == v@ {
                        assert(vv.take(k + 1).contains(x));
                    } else {
                        assert(vv.take(k + 1).contains(x) == vv.take(k as int).contains(x));
                    }
                }
            }
            k += 1;
        }
        proof {
            assert(vv.take(vs.len() as int) =~= vv);
            assert(vs@ == lists@[i as int]@);
            assert forall|x: VarV| #[trigger] apply(TermV::Var(x), pairs_map(bindings_view(pairs@))) == apply(TermV::Var(x), psi_map(c, i as int)) by {
                assert(apply(TermV::Var(x), pairs_map(bindings_view(pairs@))) == ren_target(vv.take(k as int), c, i as int, x));
                assert(vv.contains(x) <==> crate::term::tvars_seq(c[i as int]).contains(x));
            }
        }
        let sub = Substitution::from_var_pairs(pairs);
        let st = &raw[i];
        let mut ns: Vec<Term> = Vec::new();
        let mut q: usize = 0;
        #[verifier::loop_isolation(false)]
        while q < st.len()
            invariant
                q <= st.len(),
                ns.len() == q,
                forall|z: int| 0 <= z < q ==> (#[trigger] ns@[z])@ == apply(st@[z]@, psi_map(c, i as int)),
            decreases st.len() - q,
        {
            let t = sub.apply(&st[q]);
            proof {
                crate::subst::lemma_apply_agree(st@[q as int]@, sub@, psi_map(c, i as int));
            }
            ns.push(t);
            q += 1;
        }
        proof {
            lemma_views_of(ns@);
            lemma_views_of(st@);
            assert(c[i as int] == views_of(st@));
            assert(views_of(ns@) =~= disambiguated(c)[i as int]);
        }
        let ghost old_out = out@;
        out.push(ns);
        proof {
            assert forall|k: int| 0 <= k < i + 1 implies #[trigger] cons_v(out@)[k] == disambiguated(c)[k] by {
                if k < i {
                    assert(out@[k] == old_out[k]);
                    assert(cons_v(old_out)[k] == disambiguated(c)[k]);
                }
            }
        }
        i += 1;
    }
    assert(cons_v(out@) =~= disambiguated(c));
    out
}

/// Reads an interaction space: as `parse_constellation`, then each variable
/// that occurs in more than one star keeps its name in the first and is
/// renamed `x_s<i>` in star `i`.
pub fn parse_psi(src: &str) -> (r: Result<Constellation, ParseError>)
    ensures
        match r {
            Ok(c) => parsed_psi(src@) == Ok::<Seq<Seq<TermV>>, (nat, Seq<char>)>(cons_v(c@)),
            Err(e) => parsed_psi(src@) == Err::<Seq<Seq<TermV>>, (nat, Seq<char>)>((e.pos as nat, e.msg@)),
        },
{
    match parse_constellation(src) {
        Err(e) => Err(e),
        Ok(c) => Ok(disambiguate(c)),
    }
}

/// `parse_psi` fails exactly where `parse_constellation` fails, with the same
/// error; where it succeeds it gives as many stars, each as long as the one
/// read, each ray renamed by its star's renaming, and a star none of whose
/// variables occurs in an earlier star (the first star among them) unchanged.
pub proof fn lemma_parsed_psi(src: Seq<char>)
    ensures
        parsed_psi(src) is Err <==> parsed(src) is Err,
        parsed(src) is Err ==> parsed_psi(src) == parsed(src),
        parsed(src) is Ok ==> {
            let c0 = parsed(src)->Ok_0;
            let c = parsed_psi(src)->Ok_0;
            &&& c.len() == c0.len()
            &&& forall|i: int| 0 <= i < c.len() ==> (#[trigger] c[i]).len() == c0[i].len()
            &&& forall|i: int, k: int|
                0 <= i < c.len() && 0 <= k < c0[i].len() ==> #[trigger] c[i][k] == apply(
                    c0[i][k],
                    psi_map(c0, i),
                )
            &&& forall|i: int|
                0 <= i < c.len() && (forall|x: VarV|
                    crate::term::tvars_seq(c0[i]).contains(x) ==> !shared_earlier(c0, i, x)) ==> c[i]
                    == c0[i]
            &&& c.len() > 0 ==> c[0] == c0[0]
        },
{
    if parsed(src) is Ok {
        let c0 = parsed(src)->Ok_0;
        let c = parsed_psi(src)->Ok_0;
        assert forall|i: int|
            0 <= i < c.len() && (forall|x: VarV|
                crate::term::tvars_seq(c0[i]).contains(x) ==> !shared_earlier(c0, i, x)) implies c[i]
            == c0[i] by {
            crate::term::lemma_tvars_seq(c0[i]);
            assert forall|k: int| 0 <= k < c0[i].len() implies apply(c0[i][k], psi_map(c0, i))
                == c0[i][k] by {
                assert forall|x: VarV| crate::term::tvars(c0[i][k]).contains(x) implies !psi_map(
                    c0,
                    i,
                ).contains_key(x) by {
                    assert(crate::term::tvars_seq(c0[i]).contains(x));
                }
                crate::subst::lemma_apply_id(c0[i][k], psi_map(c0, i));
            }
            assert(c[i] =~= c0[i]);
        }
        if c.len() > 0 {
            assert forall|x: VarV|
                crate::term::tvars_seq(c0[0]).contains(x) implies !shared_earlier(c0, 0, x) by {}
        }
    }
}

/// A substitution sending variables to variables: each variable of the
/// image comes from a variable of the term.
proof fn lemma_vars_of_renamed(t: TermV, m: Map<VarV, TermV>)
    requires
        forall|x: VarV| #[trigger] m.contains_key(x) ==> m[x] is Var,
    ensures
        forall|y: VarV| #[trigger] crate::term::tvars(apply(t, m)).contains(y) ==> exists|x: VarV|
            crate::term::tvars(t).contains(x) && apply(TermV::Var(x), m) == TermV::Var(y),
    decreases t,
{
    match t {
        TermV::Var(x) => {
            assert forall|y: VarV| #[trigger] crate::term::tvars(apply(t, m)).contains(y) implies exists|x2: VarV|
                crate::term::tvars(t).contains(x2) && apply(TermV::Var(x2), m) == TermV::Var(y) by {
                assert(crate::term::tvars(t).contains(x));
                if m.contains_key(x) {
                    let z = m[x]->Var_0;
                    assert(m[x] == TermV::Var(z));
                    assert(crate::term::tvars(TermV::Var(z)) == set![z]);
                    assert(z == y);
                } else {
                    assert(crate::term::tvars(TermV::Var(x)) == set![x]);
                }
            }
        },
        TermV::App(f, p, args) => {
            let ra = crate::subst::apply_seq(args, m);
            crate::subst::lemma_apply_seq(args, m);
            crate::term::lemma_tvars_seq(ra);
            crate::term::lemma_tvars_seq(args);
            assert forall|y: VarV| #[trigger] crate::term::tvars(apply(t, m)).contains(y) implies exists|x2: VarV|
                crate::term::tvars(t).contains(x2) && apply(TermV::Var(x2), m) == TermV::Var(y) by {
                assert(apply(t, m) == TermV::App(f, p, ra));
                assert(crate::term::tvars(apply(t, m)) == crate::term::tvars_seq(ra));
                assert(crate::term::tvars(t) == crate::term::tvars_seq(args));
                assert(crate::term::tvars_seq(ra).contains(y));
                let k = choose|k: int| 0 <= k < ra.len() && crate::term::tvars(ra[k]).contains(y);
                lemma_vars_of_renamed(args[k], m);
                let x2 = choose|x2: VarV|
                    crate::term::tvars(args[k]).contains(x2) && apply(TermV::Var(x2), m) == TermV::Var(y);
                assert(crate::term::tvars_seq(args).contains(x2));
            }
        },
    }
}

/// No variable of a star equals the name `y_s<j>` that a variable `y`
/// shared with an earlier star is given in another star `j`.
pub open spec fn no_rename_collision(c: Seq<Seq<TermV>>) -> bool {
    forall|i: int, j: int, x: VarV, y: VarV|
        #![trigger crate::term::tvars_seq(c[i]).contains(x), crate::term::tvars_seq(c[j]).contains(y)]
        0 <= i < c.len() && 0 <= j < c.len() && i != j && crate::term::tvars_seq(c[i]).contains(x)
            && crate::term::tvars_seq(c[j]).contains(y) && shared_earlier(c, j, y) ==> x != renamed_var(
            y,
            j as nat,
        )
}

proof fn lemma_psi_star_vars(c: Seq<Seq<TermV>>, i: int, y: VarV)
    requires
        0 <= i < c.len(),
        crate::term::tvars_seq(disambiguated(c)[i]).contains(y),
    ensures
        exists|x: VarV|
            crate::term::tvars_seq(c[i]).contains(x) && ((shared_earlier(c, i, x) && y == renamed_var(x, i as nat))
                || (!shared_earlier(c, i, x) && y == x)),
{
    let d = disambiguated(c)[i];
    let pm = psi_map(c, i);
    crate::term::lemma_tvars_seq(d);
    crate::term::lemma_tvars_seq(c[i]);
    let k = choose|k: int| 0 <= k < d.len() && crate::term::tvars(d[k]).contains(y);
    assert(d[k] == apply(c[i][k], pm));
    lemma_vars_of_renamed(c[i][k], pm);
    let x = choose|x: VarV| crate::term::tvars(c[i][k]).contains(x) && apply(TermV::Var(x), pm) == TermV::Var(y);
    assert(crate::term::tvars_seq(c[i]).contains(x));
}

proof fn lemma_renamed_var_injective(x1: VarV, i: nat, x2: VarV, j: nat)
    requires
        x1 is Named,
        x2 is Named,
        renamed_var(x1, i) == renamed_var(x2, j),
    ensures
        i == j,
{
    let n1 = x1->Named_0;
    let n2 = x2->Named_0;
    let a = digits(i);
    let b = digits(j);
    let s1 = n1 + seq!['_', 's'] + a;
    let s2 = n2 + seq!['_', 's'] + b;
    assert(s1 == s2);
    crate::display::lemma_digits(i);
    crate::display::lemma_digits(j);
    let l = s1.len() as int;
    if a.len() < b.len() {
        assert(s1[l - 1 - a.len()] == 's');
        assert(s2[l - 1 - a.len()] == b[b.len() - 1 - a.len()]);
        assert(crate::display::is_digit(b[b.len() - 1 - a.len()]));
    } else if b.len() < a.len() {
        assert(s2[l - 1 - b.len()] == 's');
        assert(s1[l - 1 - b.len()] == a[a.len() - 1 - b.len()]);
        assert(crate::display::is_digit(a[a.len() - 1 - b.len()]));
    } else {
        assert forall|k: int| 0 <= k < a.len() implies a[k] == b[k] by {
            assert(s1[l - a.len() + k] == a[k]);
            assert(s2[l - b.len() + k] == b[k]);
        }
        assert(a =~= b);
        crate::display::lemma_digits_injective(i, j);
    }
}

/// The stars that `parse_psi` gives are pairwise variable-disjoint, unless
/// a variable read equals the name `y_s<j>` given in another star `j` to a
/// variable `y` that star shares with an earlier one.
pub proof fn lemma_parsed_psi_disjoint(src: Seq<char>)
    requires
        parsed(src) is Ok,
        no_rename_collision(parsed(src)->Ok_0),
    ensures
        parsed_psi(src) is Ok,
        forall|i: int, j: int, y: VarV|
            0 <= i < j < parsed_psi(src)->Ok_0.len() && #[trigger] crate::term::tvars_seq(parsed_psi(src)->Ok_0[i]).contains(y)
                ==> !#[trigger] crate::term::tvars_seq(parsed_psi(src)->Ok_0[j]).contains(y),
{
    let c = parsed(src)->Ok_0;
    let d = disambiguated(c);
    lemma_parsed_printable(src);
    assert forall|i: int, j: int, y: VarV|
        0 <= i < j < d.len() && #[trigger] crate::term::tvars_seq(d[i]).contains(y)
            implies !#[trigger] crate::term::tvars_seq(d[j]).contains(y) by {
        if crate::term::tvars_seq(d[j]).contains(y) {
            lemma_psi_star_vars(c, i, y);
            lemma_psi_star_vars(c, j, y);
            let x1 = choose|x: VarV|
                crate::term::tvars_seq(c[i]).contains(x) && ((shared_earlier(c, i, x) && y == renamed_var(x, i as nat))
                    || (!shared_earlier(c, i, x) && y == x));
            let x2 = choose|x: VarV|
                crate::term::tvars_seq(c[j]).contains(x) && ((shared_earlier(c, j, x) && y == renamed_var(x, j as nat))
                    || (!shared_earlier(c, j, x) && y == x));
            if shared_earlier(c, i, x1) {
                if shared_earlier(c, j, x2) {
                    lemma_printable_vars_named(c[i], x1);
                    lemma_printable_vars_named(c[j], x2);
                    lemma_renamed_var_injective(x1, i as nat, x2, j as nat);
                } else {
                    assert(crate::term::tvars_seq(c[j]).contains(x2) && crate::term::tvars_seq(c[i]).contains(x1));
                    assert(x2 != renamed_var(x1, i as nat));
                }
            } else {
                if shared_earlier(c, j, x2) {
                    assert(crate::term::tvars_seq(c[i]).contains(x1) && crate::term::tvars_seq(c[j]).contains(x2));
                    assert(x1 != renamed_var(x2, j as nat));
                } else {
                    assert(x1 == x2);
                    assert(crate::term::tvars_seq(c[i]).contains(x2));
                    assert(shared_earlier(c, j, x2));
                }
            }
        }
    }
}

proof fn lemma_printable_term_vars_named(t: TermV, x: VarV)
    requires
        printable(t),
        crate::term::tvars(t).contains(x),
    ensures
        x is Named,
    decreases t,
{
    match t {
        TermV::Var(v) => {
            assert(crate::term::tvars(t) == set![v]);
        },
        TermV::App(f, p, args) => {
            crate::term::lemma_tvars_seq(args);
            assert(crate::term::tvars(t) == crate::term::tvars_seq(args));
            let k = choose|k: int| 0 <= k < args.len() && crate::term::tvars(args[k]).contains(x);
            lemma_printable_seq(args);
            lemma_printable_term_vars_named(args[k], x);
        },
    }
}

/// The variables of a star that reads back as itself are named.
proof fn lemma_printable_vars_named(s: Seq<TermV>, x: VarV)
    requires
        printable_seq(s),
        crate::term::tvars_seq(s).contains(x),
    ensures
        x is Named,
{
    crate::term::lemma_tvars_seq(s);
    lemma_printable_seq(s);
    let k = choose|k: int| 0 <= k < s.len() && crate::term::tvars(s[k]).contains(x);
    lemma_printable_term_vars_named(s[k], x);
}

// ─────────────────────────────────────────────────────────────────────────
// Reading back what is written
// ─────────────────────────────────────────────────────────────────────────

/// A name that reads back as itself: non-empty, without delimiters, not
/// starting with `-`.
pub open spec fn good_name(n: Seq<char>) -> bool {
    &&& n.len() > 0
    &&& forall|k: int| 0 <= k < n.len() ==> !is_delim(#[trigger] n[k])
    &&& n[0] != '-'
}

/// A term whose written form reads back as the term: named variables start
/// with a capital, uncoloured symbols start with neither a capital nor `−`.
pub open spec fn printable(t: TermV) -> bool
    decreases t,
{
    match t {
        TermV::Var(VarV::Named(n)) => good_name(n) && 'A' <= n[0] <= 'Z',
        TermV::Var(_) => false,
        TermV::App(f, p, args) => good_name(f) && (p == Polarity::Neutral ==> !('A' <= f[0] <= 'Z') && f[0]
            != '−') && printable_seq(args),
    }
}

pub open spec fn printable_seq(ts: Seq<TermV>) -> bool
    decreases ts,
{
    if ts.len() == 0 {
        true
    } else {
        printable_seq(ts.drop_last()) && printable(ts.last())
    }
}

/// The written form of a constellation: its stars joined by `" + "`.
pub open spec fn show_constellation(c: Seq<Seq<TermV>>) -> Seq<char>
    decreases c.len(),
{
    if c.len() == 0 {
        Seq::empty()
    } else if c.len() == 1 {
        show_star(c[0])
    } else {
        show_star(c[0]) + seq![' ', '+', ' '] + show_constellation(c.drop_first())
    }
}

proof fn lemma_printable_seq(ts: Seq<TermV>)
    ensures
        printable_seq(ts) <==> forall|k: int| 0 <= k < ts.len() ==> printable(#[trigger] ts[k]),
    decreases ts.len(),
{
    if ts.len() > 0 {
        lemma_printable_seq(ts.drop_last());
        if printable_seq(ts) {
            assert forall|k: int| 0 <= k < ts.len() implies printable(#[trigger] ts[k]) by {
                if k < ts.len() - 1 {
                    assert(ts.drop_last()[k] == ts[k]);
                }
            }
        }
        if forall|k: int| 0 <= k < ts.len() ==> printable(#[trigger] ts[k]) {
            assert forall|k: int| 0 <= k < ts.drop_last().len() implies printable(#[trigger] ts.drop_last()[k]) by {
                assert(ts.drop_last()[k] == ts[k]);
            }
            assert(printable(ts[ts.len() - 1]));
        }
    }
}

proof fn lemma_show_args_first(ts: Seq<TermV>)
    requires
        ts.len() >= 2,
    ensures
        show_args(ts) == show(ts[0]) + seq![',', ' '] + show_args(ts.drop_first()),
    decreases ts.len(),
{
    if ts.len() == 2 {
        assert(ts.drop_last().len() == 1);
        assert(ts.drop_first().len() == 1);
        assert(ts.drop_first()[0] == ts.last());
        assert(ts.drop_last()[0] == ts[0]);
        assert(show_args(ts.drop_last()) == show(ts[0]));
        assert(show_args(ts.drop_first()) == show(ts[1]));
        assert(show_args(ts) == show_args(ts.drop_last()) + seq![',', ' '] + show(ts.last()));
    } else {
        lemma_show_args_first(ts.drop_last());
        assert(ts.drop_last().drop_first() =~= ts.drop_first().drop_last());
        assert(ts.drop_first().last() == ts.last());
        assert(show_args(ts.drop_first()) == show_args(ts.drop_first().drop_last()) + seq![',', ' '] + show(
            ts.last(),
        ));
        assert(show_args(ts) =~= show(ts[0]) + seq![',', ' '] + show_args(ts.drop_first()));
    }
}

/// The first character of a written term is none of the characters the
/// reader skips or stops at.
proof fn lemma_show_first(t: TermV)
    requires
        printable(t),
    ensures
        show(t).len() > 0,
        ({
            let c = show(t)[0];
            c != ' ' && c != '\t' && c != '\r' && c != '#' && c != ')' && c != ']' && c != ',' && c != '\n'
        }),
{
    match t {
        TermV::Var(VarV::Named(n)) => {
            assert(!is_delim(n[0]));
        },
        TermV::Var(_) => {},
        TermV::App(f, p, args) => {
            assert(!is_delim(f[0]));
            if args.len() == 0 {
                assert(show(t) == sign(p) + f);
            } else {
                assert(show(t) == sign(p) + f + seq!['('] + show_args(args) + seq![')']);
            }
        },
    }
}

proof fn lemma_show_args_first_char(ts: Seq<TermV>)
    requires
        ts.len() >= 1,
        printable(ts[0]),
    ensures
        show_args(ts).len() >= show(ts[0]).len(),
        show_args(ts).subrange(0, show(ts[0]).len() as int) == show(ts[0]),
{
    if ts.len() == 1 {
        assert(show_args(ts).subrange(0, show(ts[0]).len() as int) =~= show(ts[0]));
    } else {
        lemma_show_args_first(ts);
        assert(show_args(ts).subrange(0, show(ts[0]).len() as int) =~= show(ts[0]));
    }
}

proof fn lemma_ws_stop(s: Seq<char>, i: nat)
    requires
        i >= s.len() || !(s[i as int] == ' ' || s[i as int] == '\t' || s[i as int] == '\r' || s[i as int] == '#'),
    ensures
        ws(s, i) == i,
{
}

proof fn lemma_ident_block(s: Seq<char>, i: nat, n: nat)
    requires
        i + n <= s.len(),
        forall|k: int| i <= k < i + n ==> !is_delim(#[trigger] s[k]),
        i + n == s.len() || is_delim(s[(i + n) as int]),
    ensures
        ident_end(s, i) == i + n,
    decreases n,
{
    if n > 0 {
        lemma_ident_block(s, i + 1, (n - 1) as nat);
    }
}

/// A written term, where the reader's whitespace skip from `j` lands on it,
/// reads back as the term.
#[verifier::rlimit(60)]
proof fn lemma_read_term_show(s: Seq<char>, j: nat, q: nat, t: TermV)
    requires
        printable(t),
        j <= q,
        ws(s, j) == q,
        q + show(t).len() <= s.len(),
        s.subrange(q as int, (q + show(t).len()) as int) == show(t),
        q + show(t).len() == s.len() || s[(q + show(t).len()) as int] == ',' || s[(q + show(t).len()) as int] == ')'
            || s[(q + show(t).len()) as int] == ']',
    ensures
        read_term(s, j) == Ok::<(TermV, nat), (nat, Seq<char>)>((t, q + show(t).len())),
    decreases t,
{
    let w = show(t);
    let e0 = q + w.len();
    assert forall|k: int| 0 <= k < w.len() implies s[(q + k) as int] == #[trigger] w[k] by {
        assert(s.subrange(q as int, e0 as int)[k] == s[(q + k) as int]);
    }
    match t {
        TermV::Var(VarV::Named(n)) => {
            assert(w == n);
            assert(s[q as int] == n[0]);
            lemma_ws_stop(s, q);
            assert forall|k: int| q <= k < q + n.len() implies !is_delim(#[trigger] s[k]) by {
                assert(s[k] == n[k - q]);
            }
            lemma_ident_block(s, q, n.len());
            assert(s.subrange(q as int, (q + n.len()) as int) =~= n);
            assert('A' <= n[0] <= 'Z');
            assert(('−' as int) == 0x2212 && ('Z' as int) == 90);
            assert(s[q as int] != '−');
            assert(!at(s, q, '+') && !at(s, q, '-') && !at(s, q, '−'));
            assert(ws(s, q) == q);
            assert(q < s.len() && !is_delim(s[q as int]) && s[q as int] != '-');
            assert('A' <= s[q as int] <= 'Z');
        },
        TermV::Var(_) => {},
        TermV::App(f, p, args) => {
            let sg = sign(p);
            let i2 = q + sg.len();
            assert(!is_delim(f[0]));
            assert(w.subrange(0, sg.len() as int) =~= sg) by {
                if args.len() == 0 {
                    assert(w == sg + f);
                } else {
                    assert(w == sg + f + seq!['('] + show_args(args) + seq![')']);
                }
            }
            assert(w.subrange(sg.len() as int, (sg.len() + f.len()) as int) =~= f) by {
                if args.len() == 0 {
                    assert(w == sg + f);
                } else {
                    assert(w == sg + f + seq!['('] + show_args(args) + seq![')']);
                }
            }
            assert forall|k: int| 0 <= k < f.len() implies s[(i2 + k) as int] == #[trigger] f[k] by {
                assert(w.subrange(sg.len() as int, (sg.len() + f.len()) as int)[k] == w[(sg.len() + k) as int]);
            }
            assert(s[q as int] == w[0]);
            if p == Polarity::Pos {
                assert(w[0] == '+');
            } else if p == Polarity::Neg {
                assert(w[0] == '-');
            } else {
                assert(w[0] == f[0]);
            }
            lemma_ws_stop(s, i2);
            let e = i2 + f.len();
            assert forall|k: int| i2 <= k < e implies !is_delim(#[trigger] s[k]) by {
                assert(s[k] == f[k - i2]);
            }
            if args.len() == 0 {
                assert(w == sg + f);
                assert(e == e0);
                lemma_ident_block(s, i2, f.len());
                lemma_ws_stop(s, e);
            } else {
                let inner = show_args(args);
                assert(w == sg + f + seq!['('] + inner + seq![')']);
                assert(s[e as int] == w[(sg.len() + f.len()) as int]);
                assert(s[e as int] == '(');
                lemma_ident_block(s, i2, f.len());
                lemma_ws_stop(s, e);
                lemma_printable_seq(args);
                lemma_show_first(args[0]);
                lemma_show_args_first_char(args);
                let q2 = e + 1;
                assert(s[q2 as int] == w[(sg.len() + f.len() + 1) as int]);
                assert(w[(sg.len() + f.len() + 1) as int] == inner[0]);
                assert(inner[0] == show(args[0])[0]);
                lemma_ws_stop(s, q2);
                assert(s.subrange(q2 as int, (q2 + inner.len()) as int) =~= inner) by {
                    assert forall|k: int| 0 <= k < inner.len() implies s.subrange(q2 as int, (q2 + inner.len()) as int)[k] == inner[k] by {
                        assert(s[(q2 + k) as int] == w[(sg.len() + f.len() + 1 + k) as int]);
                    }
                }
                assert(s[(q2 + inner.len()) as int] == w[(w.len() - 1) as int]);
                lemma_read_args_show(s, q2, q2, Seq::empty(), args);
                assert(Seq::<TermV>::empty() + args =~= args);
            }
            assert(s.subrange(i2 as int, e as int) =~= f);
        },
    }
}

/// A written argument list and its closing parenthesis read back.
proof fn lemma_read_args_show(s: Seq<char>, j: nat, q: nat, acc: Seq<TermV>, ts: Seq<TermV>)
    requires
        ts.len() >= 1,
        printable_seq(ts),
        j <= q,
        ws(s, j) == q,
        q + show_args(ts).len() + 1 <= s.len(),
        s.subrange(q as int, (q + show_args(ts).len()) as int) == show_args(ts),
        s[(q + show_args(ts).len()) as int] == ')',
    ensures
        read_args(s, j, acc) == Ok::<(Seq<TermV>, nat), (nat, Seq<char>)>((acc + ts, q + show_args(ts).len() + 1)),
    decreases ts,
{
    lemma_printable_seq(ts);
    let w = show_args(ts);
    let t0 = ts[0];
    let k = q + show(t0).len();
    lemma_show_first(t0);
    lemma_show_args_first_char(ts);
    assert(s[q as int] == s.subrange(q as int, (q + w.len()) as int)[0]);
    assert(s.subrange(q as int, k as int) =~= show(t0)) by {
        assert forall|m: int| 0 <= m < show(t0).len() implies s.subrange(q as int, k as int)[m] == show(t0)[m] by {
            assert(s.subrange(q as int, (q + w.len()) as int)[m] == w[m]);
            assert(w.subrange(0, show(t0).len() as int)[m] == w[m]);
        }
    }
    if ts.len() == 1 {
        assert(w == show(t0));
        lemma_read_term_show(s, q, q, t0);
        lemma_ws_stop(s, q);
        lemma_ws_stop(s, k);
        assert(acc + ts =~= acc.push(t0));
    } else {
        lemma_show_args_first(ts);
        let rest = ts.drop_first();
        let wr = show_args(rest);
        assert(w == show(t0) + seq![',', ' '] + wr);
        assert(s[k as int] == s.subrange(q as int, (q + w.len()) as int)[show(t0).len() as int]);
        assert(s[k as int] == ',');
        lemma_read_term_show(s, q, q, t0);
        lemma_ws_stop(s, q);
        lemma_ws_stop(s, k);
        assert(s[(k + 1) as int] == s.subrange(q as int, (q + w.len()) as int)[(show(t0).len() + 1) as int]);
        assert(s[(k + 1) as int] == ' ');
        lemma_printable_seq(rest);
        assert(printable(rest[0]));
        lemma_show_first(rest[0]);
        lemma_show_args_first_char(rest);
        let q2 = k + 2;
        assert forall|m: int| 0 <= m < wr.len() implies s[(q2 + m) as int] == wr[m] by {
            assert(s[(q2 + m) as int] == s.subrange(q as int, (q + w.len()) as int)[show(t0).len() + 2 + m]);
        }
        assert(s[q2 as int] == wr[0]);
        assert(wr[0] == show(rest[0])[0]);
        lemma_ws_stop(s, q2);
        assert(ws(s, k + 1) == q2);
        assert(s.subrange(q2 as int, (q2 + wr.len()) as int) =~= wr);
        assert(q2 + wr.len() == q + w.len());
        assert(decreases_to!(ts => rest));
        lemma_read_args_show(s, k + 1, q2, acc.push(t0), rest);
        assert(acc.push(t0) + rest =~= acc + ts);
    }
}

/// A written list of rays and its closing bracket read back.
proof fn lemma_read_rays_show(s: Seq<char>, j: nat, q: nat, acc: Seq<TermV>, ts: Seq<TermV>)
    requires
        ts.len() >= 1,
        printable_seq(ts),
        j <= q,
        ws(s, j) == q,
        q + show_args(ts).len() + 1 <= s.len(),
        s.subrange(q as int, (q + show_args(ts).len()) as int) == show_args(ts),
        s[(q + show_args(ts).len()) as int] == ']',
    ensures
        read_rays(s, j, acc) == Ok::<(Seq<TermV>, nat), (nat, Seq<char>)>((acc + ts, q + show_args(ts).len() + 1)),
    decreases ts.len(),
{
    lemma_printable_seq(ts);
    let w = show_args(ts);
    let t0 = ts[0];
    let k = q + show(t0).len();
    lemma_show_first(t0);
    lemma_show_args_first_char(ts);
    assert(s.subrange(q as int, k as int) =~= show(t0)) by {
        assert forall|m: int| 0 <= m < show(t0).len() implies s.subrange(q as int, k as int)[m] == show(t0)[m] by {
            assert(s.subrange(q as int, (q + w.len()) as int)[m] == w[m]);
            assert(w.subrange(0, show(t0).len() as int)[m] == w[m]);
        }
    }
    if ts.len() == 1 {
        assert(w == show(t0));
        lemma_read_term_show(s, j, q, t0);
        lemma_ws_stop(s, k);
        assert(acc + ts =~= acc.push(t0));
    } else {
        lemma_show_args_first(ts);
        let rest = ts.drop_first();
        let wr = show_args(rest);
        assert(w == show(t0) + seq![',', ' '] + wr);
        assert(s[k as int] == s.subrange(q as int, (q + w.len()) as int)[show(t0).len() as int]);
        lemma_read_term_show(s, j, q, t0);
        lemma_ws_stop(s, k);
        assert(s[(k + 1) as int] == s.subrange(q as int, (q + w.len()) as int)[(show(t0).len() + 1) as int]);
        lemma_printable_seq(rest);
        assert(printable(rest[0]));
        lemma_show_first(rest[0]);
        lemma_show_args_first_char(rest);
        let q2 = k + 2;
        assert forall|m: int| 0 <= m < wr.len() implies s[(q2 + m) as int] == wr[m] by {
            assert(s[(q2 + m) as int] == s.subrange(q as int, (q + w.len()) as int)[show(t0).len() + 2 + m]);
        }
        assert(s[q2 as int] == wr[0]);
        assert(wr[0] == show(rest[0])[0]);
        lemma_ws_stop(s, q2);
        assert(ws(s, k + 1) == q2);
        assert(s.subrange(q2 as int, (q2 + wr.len()) as int) =~= wr);
        lemma_read_rays_show(s, k + 1, q2, acc.push(t0), rest);
        assert(acc.push(t0) + rest =~= acc + ts);
    }
}

/// A written star reads back.
proof fn lemma_read_star_show(s: Seq<char>, i: nat, st: Seq<TermV>)
    requires
        printable_seq(st),
        i + show_star(st).len() <= s.len(),
        s.subrange(i as int, (i + show_star(st).len()) as int) == show_star(st),
    ensures
        read_star(s, i) == Ok::<(Seq<TermV>, nat), (nat, Seq<char>)>((st, i + show_star(st).len())),
{
    let w = show_star(st);
    let inner = show_args(st);
    assert(w == seq!['['] + inner + seq![']']);
    assert forall|m: int| 0 <= m < w.len() implies s[(i + m) as int] == #[trigger] w[m] by {
        assert(s.subrange(i as int, (i + w.len()) as int)[m] == s[(i + m) as int]);
    }
    assert(w[0] == '[');
    assert(s[(i + 0) as int] == w[0]);
    assert(s[i as int] == '[');
    lemma_ws_stop(s, i);
    if st.len() == 0 {
        assert(inner.len() == 0);
        assert(w[1] == ']');
        assert(s[(i + 1) as int] == w[1]);
        assert(s[(i + 1) as int] == ']');
        lemma_ws_stop(s, i + 1);
        assert(st =~= Seq::<TermV>::empty());
        assert(w.len() == 2);
    } else {
        lemma_printable_seq(st);
        lemma_show_first(st[0]);
        lemma_show_args_first_char(st);
        assert(s[(i + 1) as int] == w[1]);
        assert(w[1] == inner[0]);
        assert(inner[0] == show(st[0])[0]);
        lemma_ws_stop(s, i + 1);
        assert(s.subrange((i + 1) as int, (i + 1 + inner.len()) as int) =~= inner) by {
            assert forall|m: int| 0 <= m < inner.len() implies s.subrange((i + 1) as int, (i + 1 + inner.len()) as int)[m] == inner[m] by {
                assert(s[(i + 1 + m) as int] == w[(1 + m) as int]);
            }
        }
        assert(s[(i + 1 + inner.len()) as int] == w[(w.len() - 1) as int]);
        lemma_read_rays_show(s, i + 1, i + 1, Seq::empty(), st);
        assert(Seq::<TermV>::empty() + st =~= st);
    }
}

proof fn lemma_show_constellation_ends(c: Seq<Seq<TermV>>)
    requires
        c.len() > 0,
    ensures
        show_constellation(c).len() >= 2,
        show_constellation(c)[0] == '[',
        show_constellation(c).last() == ']',
        show_constellation(c).len() >= show_star(c[0]).len(),
        show_constellation(c).subrange(0, show_star(c[0]).len() as int) == show_star(c[0]),
    decreases c.len(),
{
    let w0 = show_star(c[0]);
    assert(w0 == seq!['['] + show_args(c[0]) + seq![']']);
    if c.len() == 1 {
        assert(show_constellation(c).subrange(0, w0.len() as int) =~= w0);
    } else {
        lemma_show_constellation_ends(c.drop_first());
        let r = show_constellation(c.drop_first());
        assert(show_constellation(c) == w0 + seq![' ', '+', ' '] + r);
        assert(show_constellation(c).last() == r.last());
        assert(show_constellation(c).subrange(0, w0.len() as int) =~= w0);
    }
}

/// Written stars joined by `" + "`, up to the end of the text, read back.
proof fn lemma_read_stars_show(s: Seq<char>, i: nat, acc: Seq<Seq<TermV>>, c: Seq<Seq<TermV>>)
    requires
        c.len() > 0,
        forall|k: int| 0 <= k < c.len() ==> printable_seq(#[trigger] c[k]),
        i + show_constellation(c).len() == s.len(),
        s.subrange(i as int, s.len() as int) == show_constellation(c),
    ensures
        read_stars(s, i, acc) == Ok::<(Seq<Seq<TermV>>, nat), (nat, Seq<char>)>((acc + c, s.len())),
    decreases c.len(),
{
    let w = show_constellation(c);
    let w0 = show_star(c[0]);
    lemma_show_constellation_ends(c);
    assert forall|m: int| 0 <= m < w.len() implies s[(i + m) as int] == #[trigger] w[m] by {
        assert(s.subrange(i as int, s.len() as int)[m] == s[(i + m) as int]);
    }
    assert(s.subrange(i as int, (i + w0.len()) as int) =~= w0) by {
        assert forall|m: int| 0 <= m < w0.len() implies s.subrange(i as int, (i + w0.len()) as int)[m] == w0[m] by {
            assert(w.subrange(0, w0.len() as int)[m] == w[m]);
            assert(s[(i + m) as int] == w[m]);
        }
    }
    lemma_read_star_show(s, i, c[0]);
    let k = i + w0.len();
    if c.len() == 1 {
        assert(k == s.len());
        lemma_ws_stop(s, k);
        assert(read_seps(s, k, false) == (k, false));
        assert(skip_lines(s, k) == k);
        assert(acc + c =~= acc.push(c[0]));
    } else {
        let r = show_constellation(c.drop_first());
        assert(w == w0 + seq![' ', '+', ' '] + r);
        lemma_show_constellation_ends(c.drop_first());
        assert(s[k as int] == w[w0.len() as int]);
        assert(s[k as int] == ' ');
        assert(s[(k + 1) as int] == w[(w0.len() + 1) as int]);
        assert(s[(k + 1) as int] == '+');
        assert(s[(k + 2) as int] == w[(w0.len() + 2) as int]);
        assert(s[(k + 2) as int] == ' ');
        assert(s[(k + 3) as int] == w[(w0.len() + 3) as int]);
        assert(s[(k + 3) as int] == '[');
        lemma_ws_stop(s, k + 1);
        assert(ws_from(s, k, false) == ws_from(s, k + 1, false));
        assert(ws(s, k) == k + 1);
        lemma_ws_stop(s, k + 3);
        assert(ws_from(s, k + 2, false) == ws_from(s, k + 3, false));
        assert(ws(s, k + 2) == k + 3);
        assert(read_seps(s, k + 2, true) == (k + 3, true));
        assert(read_seps(s, k, false) == (k + 3, true));
        assert(skip_lines(s, k + 3) == k + 3);
        assert(s.subrange((k + 3) as int, s.len() as int) =~= r) by {
            assert forall|m: int| 0 <= m < r.len() implies s.subrange((k + 3) as int, s.len() as int)[m] == r[m] by {
                assert(s[(k + 3 + m) as int] == w[(w0.len() + 3 + m) as int]);
            }
        }
        assert forall|m: int| 0 <= m < c.drop_first().len() implies printable_seq(#[trigger] c.drop_first()[m]) by {
            assert(c.drop_first()[m] == c[m + 1]);
        }
        lemma_read_stars_show(s, k + 3, acc.push(c[0]), c.drop_first());
        assert(acc.push(c[0]) + c.drop_first() =~= acc + c);
    }
}

/// Reading the written form of a constellation gives it back, where every
/// name reads back as itself (variables start with a capital, uncoloured
/// symbols with neither a capital nor `−`, no name holds a delimiter or
/// starts with `-`); every constellation the reader returns is such
/// (`lemma_parsed_printable`).
pub proof fn lemma_parse_show_round_trip(c: Seq<Seq<TermV>>)
    requires
        forall|k: int| 0 <= k < c.len() ==> printable_seq(#[trigger] c[k]),
    ensures
        parsed(show_constellation(c)) == Ok::<Seq<Seq<TermV>>, (nat, Seq<char>)>(c),
{
    let s = show_constellation(c);
    if c.len() == 0 {
        assert(lead(s) == 0);
        assert(trimmed(s) =~= Seq::<char>::empty());
        assert(c =~= Seq::<Seq<TermV>>::empty());
    } else {
        lemma_show_constellation_ends(c);
        assert(!is_space(s[0]));
        assert(lead(s) == 0);
        assert(!is_space(s.last()));
        assert(trail(s) == 0);
        assert(trimmed(s) =~= s);
        assert(s.subrange(0, s.len() as int) =~= s);
        lemma_read_stars_show(s, 0, Seq::empty(), c);
        assert(Seq::<Seq<TermV>>::empty() + c =~= c);
        lemma_ws_stop(s, s.len());
        assert(skip_lines(s, s.len()) == s.len());
    }
}

proof fn lemma_printable_renamed(t: TermV, m: Map<VarV, TermV>, k: nat)
    requires
        printable(t),
        forall|x: VarV| #[trigger] m.contains_key(x) ==> m[x] == TermV::Var(renamed_var(x, k)),
    ensures
        printable(apply(t, m)),
    decreases t,
{
    match t {
        TermV::Var(x) => {
            if m.contains_key(x) {
                let n = x->Named_0;
                let r = n + seq!['_', 's'] + digits(k);
                crate::display::lemma_digits(k);
                assert forall|q: int| 0 <= q < r.len() implies !is_delim(#[trigger] r[q]) by {
                    if q < n.len() {
                        assert(r[q] == n[q]);
                    } else if q >= n.len() + 2 {
                        assert(r[q] == digits(k)[q - n.len() - 2]);
                        assert(crate::display::is_digit(digits(k)[q - n.len() - 2]));
                    }
                }
                assert(r[0] == n[0]);
            }
        },
        TermV::App(f, p, args) => {
            let ra = crate::subst::apply_seq(args, m);
            crate::subst::lemma_apply_seq(args, m);
            lemma_printable_seq(args);
            lemma_printable_seq(ra);
            assert forall|q: int| 0 <= q < ra.len() implies printable(#[trigger] ra[q]) by {
                lemma_printable_renamed(args[q], m, k);
            }
        },
    }
}

/// `parse_psi` is a fixed point of writing and reading again: reading the
/// written form of its result with `parse_psi` gives the result back, unless
/// a variable read equals the name `y_s<j>` given in another star `j` to a
/// variable `y` that star shares with an earlier one.
pub proof fn lemma_parse_psi_fixed_point(src: Seq<char>)
    requires
        parsed(src) is Ok,
        no_rename_collision(parsed(src)->Ok_0),
    ensures
        parsed_psi(src) is Ok,
        parsed_psi(show_constellation(parsed_psi(src)->Ok_0)) == parsed_psi(src),
{
    lemma_parsed_printable(src);
    let c = parsed(src)->Ok_0;
    let d = disambiguated(c);
    assert forall|i: int| 0 <= i < d.len() implies printable_seq(#[trigger] d[i]) by {
        lemma_printable_seq(c[i]);
        lemma_printable_seq(d[i]);
        assert forall|q: int| 0 <= q < d[i].len() implies printable(#[trigger] d[i][q]) by {
            assert(d[i][q] == apply(c[i][q], psi_map(c, i)));
            lemma_printable_renamed(c[i][q], psi_map(c, i), i as nat);
        }
    }
    lemma_parse_show_round_trip(d);
    let t = show_constellation(d);
    assert(parsed(t) == Ok::<Seq<Seq<TermV>>, (nat, Seq<char>)>(d));
    lemma_parsed_psi_disjoint(src);
    lemma_parsed_psi(t);
    assert forall|i: int| 0 <= i < d.len() implies disambiguated(d)[i] == d[i] by {
        assert forall|x: VarV| crate::term::tvars_seq(d[i]).contains(x) implies !shared_earlier(d, i, x) by {
            if shared_earlier(d, i, x) {
                let j = choose|j: int| 0 <= j < i && (#[trigger] crate::term::tvars_seq(d[j])).contains(x);
                assert(!crate::term::tvars_seq(d[i]).contains(x));
            }
        }
    }
    assert(disambiguated(d) =~= d);
}

proof fn lemma_ws_result(s: Seq<char>, i: nat, comment: bool)
    ensures
        ({
            let r = ws_from(s, i, comment);
            r >= s.len() || !(s[r as int] == ' ' || s[r as int] == '\t' || s[r as int] == '\r' || s[r as int] == '#')
        }),
    decreases s.len() - i,
{
    if i < s.len() {
        lemma_ws_result(s, i + 1, true);
        lemma_ws_result(s, i + 1, false);
    }
}

proof fn lemma_printable_push(acc: Seq<TermV>, t: TermV)
    requires
        printable_seq(acc),
        printable(t),
    ensures
        printable_seq(acc.push(t)),
{
    assert(acc.push(t).drop_last() =~= acc);
}

/// Every term the reader returns reads back as itself when written.
proof fn lemma_read_term_printable(s: Seq<char>, i: nat)
    ensures
        read_term(s, i) is Ok ==> printable(read_term(s, i)->Ok_0.0),
    decreases s.len() - i, 0nat,
{
    if i <= s.len() {
        let i1 = ws(s, i);
        lemma_ws_from(s, i, false);
        lemma_ws_result(s, i, false);
        let (pol, i2) = if at(s, i1, '+') {
            (Polarity::Pos, i1 + 1)
        } else if at(s, i1, '-') || at(s, i1, '−') {
            (Polarity::Neg, i1 + 1)
        } else {
            (Polarity::Neutral, i1)
        };
        let i3 = ws(s, i2);
        lemma_ws_from(s, i2, false);
        if i3 < s.len() && !is_delim(s[i3 as int]) && s[i3 as int] != '-' {
            if pol == Polarity::Neutral {
                lemma_ws_stop(s, i1);
                assert(i3 == i1);
            }
            let e = ident_end(s, i3);
            lemma_ident_end(s, i3);
            let name = s.subrange(i3 as int, e as int);
            assert forall|k: int| 0 <= k < name.len() implies !is_delim(#[trigger] name[k]) by {
                assert(name[k] == s[i3 + k]);
            }
            assert(name[0] == s[i3 as int]);
            if !(pol == Polarity::Neutral && 'A' <= s[i3 as int] <= 'Z') {
                let i4 = ws(s, e);
                lemma_ws_from(s, e, false);
                if at(s, i4, '(') {
                    lemma_read_args_printable(s, i4 + 1, Seq::empty());
                }
            }
        }
    }
}

proof fn lemma_read_args_printable(s: Seq<char>, j: nat, acc: Seq<TermV>)
    requires
        printable_seq(acc),
    ensures
        read_args(s, j, acc) is Ok ==> printable_seq(read_args(s, j, acc)->Ok_0.0),
    decreases s.len() - j, 1nat,
{
    if j <= s.len() {
        let j1 = ws(s, j);
        lemma_ws_from(s, j, false);
        if !at(s, j1, ')') {
            lemma_read_term_printable(s, j1);
            match read_term(s, j1) {
                Ok((t, k)) => {
                    if k > j1 {
                        let k1 = ws(s, k);
                        lemma_ws_from(s, k, false);
                        lemma_printable_push(acc, t);
                        if at(s, k1, ',') {
                            lemma_read_args_printable(s, k1 + 1, acc.push(t));
                        }
                    }
                },
                Err(_) => {},
            }
        }
    }
}

proof fn lemma_read_rays_printable(s: Seq<char>, j: nat, acc: Seq<TermV>)
    requires
        printable_seq(acc),
    ensures
        read_rays(s, j, acc) is Ok ==> printable_seq(read_rays(s, j, acc)->Ok_0.0),
    decreases s.len() - j,
{
    if j <= s.len() {
        lemma_read_term_printable(s, j);
        match read_term(s, j) {
            Ok((t, k)) => {
                if k > j {
                    let k1 = ws(s, k);
                    lemma_ws_from(s, k, false);
                    lemma_printable_push(acc, t);
                    if at(s, k1, ',') {
                        lemma_read_rays_printable(s, k1 + 1, acc.push(t));
                    }
                }
            },
            Err(_) => {},
        }
    }
}

proof fn lemma_read_stars_printable(s: Seq<char>, i: nat, acc: Seq<Seq<TermV>>)
    requires
        forall|k: int| 0 <= k < acc.len() ==> printable_seq(#[trigger] acc[k]),
    ensures
        read_stars(s, i, acc) is Ok ==> forall|k: int|
            0 <= k < read_stars(s, i, acc)->Ok_0.0.len() ==> printable_seq(#[trigger] read_stars(s, i, acc)->Ok_0.0[k]),
    decreases s.len() - i,
{
    let i1 = ws(s, i);
    let i2 = ws(s, i1 + 1);
    assert(printable_seq(Seq::<TermV>::empty()));
    lemma_read_rays_printable(s, i2, Seq::empty());
    match read_star(s, i) {
        Ok((st, k)) => {
            let acc2 = acc.push(st);
            assert(printable_seq(st));
            assert forall|q: int| 0 <= q < acc2.len() implies printable_seq(#[trigger] acc2[q]) by {
                if q < acc.len() {
                    assert(acc2[q] == acc[q]);
                }
            }
            let (k1, saw) = read_seps(s, k, false);
            let k2 = skip_lines(s, k1);
            if k2 < s.len() && (saw || at(s, k2, '[')) && at(s, k2, '[') && k2 > i {
                lemma_read_stars_printable(s, k2, acc2);
            }
        },
        Err(_) => {},
    }
}

/// Every constellation the reader returns reads back as itself when written.
pub proof fn lemma_parsed_printable(src: Seq<char>)
    ensures
        parsed(src) is Ok ==> forall|k: int|
            0 <= k < parsed(src)->Ok_0.len() ==> printable_seq(#[trigger] parsed(src)->Ok_0[k]),
{
    let t = trimmed(src);
    if t.len() > 0 {
        lemma_read_stars_printable(t, 0, Seq::empty());
    }
}

// ─────────────────────────────────────────────────────────────────────────
// `;` separates stars exactly as `+` does
// ─────────────────────────────────────────────────────────────────────────

proof fn lemma_semi_at(s: Seq<char>, j: int)
    requires
        0 <= j < s.len(),
        s[j] == ';',
    ensures
        forall|k: nat, c: char| c != '+' && c != ';' ==> #[trigger] at(s.update(j, '+'), k, c) == at(s, k, c),
        forall|k: nat| #[trigger] at(s.update(j, '+'), k, '+') == (at(s, k, '+') || k == j),
        forall|k: nat| (#[trigger] at(s, k, ';')) ==> k == j || at(s.update(j, '+'), k, ';'),
        s.update(j, '+').len() == s.len(),
{
    assert forall|k: nat, c: char| c != '+' && c != ';' implies #[trigger] at(s.update(j, '+'), k, c)
        == at(s, k, c) by {
        if k < s.len() && k != j {
            assert(s.update(j, '+')[k as int] == s[k as int]);
        }
    }
    assert forall|k: nat| #[trigger] at(s.update(j, '+'), k, '+') == (at(s, k, '+') || k == j) by {
        if k < s.len() && k != j {
            assert(s.update(j, '+')[k as int] == s[k as int]);
        }
    }
    assert forall|k: nat| (#[trigger] at(s, k, ';')) implies k == j || at(s.update(j, '+'), k, ';') by {
        if k < s.len() && k != j {
            assert(s.update(j, '+')[k as int] == s[k as int]);
        }
    }
}

proof fn lemma_semi_ws(s: Seq<char>, j: int, i: nat, comment: bool)
    requires
        0 <= j < s.len(),
        s[j] == ';',
    ensures
        ws_from(s.update(j, '+'), i, comment) == ws_from(s, i, comment),
    decreases s.len() - i,
{
    let s2 = s.update(j, '+');
    if i < s.len() {
        assert(i == j || s2[i as int] == s[i as int]);
        lemma_semi_ws(s, j, i + 1, true);
        lemma_semi_ws(s, j, i + 1, false);
    }
}

proof fn lemma_semi_ident_end(s: Seq<char>, j: int, i: nat)
    requires
        0 <= j < s.len(),
        s[j] == ';',
    ensures
        ident_end(s.update(j, '+'), i) == ident_end(s, i),
    decreases s.len() - i,
{
    let s2 = s.update(j, '+');
    if i < s.len() {
        assert(i == j || s2[i as int] == s[i as int]);
        lemma_semi_ident_end(s, j, i + 1);
    }
}

proof fn lemma_semi_skip_lines(s: Seq<char>, j: int, i: nat)
    requires
        0 <= j < s.len(),
        s[j] == ';',
    ensures
        skip_lines(s.update(j, '+'), i) == skip_lines(s, i),
    decreases s.len() - i,
{
    lemma_semi_at(s, j);
    if i <= s.len() {
        lemma_semi_ws(s, j, i, false);
        lemma_ws_from(s, i, false);
        let i1 = ws(s, i);
        assert(at(s.update(j, '+'), i1, '\n') == at(s, i1, '\n'));
        if at(s, i1, '\n') {
            lemma_semi_skip_lines(s, j, i1 + 1);
        }
    }
}

proof fn lemma_semi_seps(s: Seq<char>, j: int, i: nat, saw: bool)
    requires
        0 <= j < s.len(),
        s[j] == ';',
    ensures
        read_seps(s.update(j, '+'), i, saw) == read_seps(s, i, saw),
    decreases s.len() - i,
{
    lemma_semi_at(s, j);
    if i <= s.len() {
        lemma_semi_ws(s, j, i, false);
        lemma_ws_from(s, i, false);
        let s2 = s.update(j, '+');
        let i1 = ws(s, i);
        assert(at(s2, i1, '\n') == at(s, i1, '\n'));
        assert((at(s2, i1, '+') || at(s2, i1, ';') || at(s2, i1, '\n')) == (at(s, i1, '+') || at(s, i1, ';')
            || at(s, i1, '\n')));
        if at(s, i1, '+') || at(s, i1, ';') || at(s, i1, '\n') {
            lemma_semi_seps(s, j, i1 + 1, true);
        }
    }
}

proof fn lemma_semi_term(s: Seq<char>, j: int, i: nat)
    requires
        0 <= j < s.len(),
        s[j] == ';',
        read_term(s, i) is Ok,
    ensures
        read_term(s.update(j, '+'), i) == read_term(s, i),
    decreases s.len() - i, 0nat,
{
    let s2 = s.update(j, '+');
    lemma_semi_at(s, j);
    lemma_semi_ws(s, j, i, false);
    lemma_ws_from(s, i, false);
    let i1 = ws(s, i);
    if i1 == j {
        assert(!at(s, i1, '+') && !at(s, i1, '-') && !at(s, i1, '−'));
        assert(ws(s, i1) == i1);
        assert(is_delim(s[i1 as int]));
        assert(false);
    }
    assert(at(s2, i1, '+') == at(s, i1, '+'));
    assert(at(s2, i1, '-') == at(s, i1, '-'));
    assert(at(s2, i1, '−') == at(s, i1, '−'));
    let i2 = if at(s, i1, '+') { i1 + 1 } else if at(s, i1, '-') || at(s, i1, '−') { i1 + 1 } else { i1 };
    lemma_semi_ws(s, j, i2, false);
    lemma_ws_from(s, i2, false);
    let i3 = ws(s, i2);
    if i3 < s.len() && !is_delim(s[i3 as int]) && s[i3 as int] != '-' {
        assert(i3 != j);
        assert(s2[i3 as int] == s[i3 as int]);
        lemma_semi_ident_end(s, j, i3);
        lemma_ident_end(s, i3);
        let e = ident_end(s, i3);
        assert(s2.subrange(i3 as int, e as int) =~= s.subrange(i3 as int, e as int)) by {
            assert forall|k: int| i3 <= k < e implies s2[k] == s[k] by {
                assert(!is_delim(s[k]));
                assert(k != j);
            }
        }
        lemma_semi_ws(s, j, e, false);
        lemma_ws_from(s, e, false);
        let i4 = ws(s, e);
        assert(at(s2, i4, '(') == at(s, i4, '('));
        if !(i2 == i1 && 'A' <= s[i3 as int] <= 'Z') && at(s, i4, '(') {
            lemma_semi_args(s, j, i4 + 1, Seq::empty());
        }
    }
}

proof fn lemma_semi_args(s: Seq<char>, j: int, k: nat, acc: Seq<TermV>)
    requires
        0 <= j < s.len(),
        s[j] == ';',
        read_args(s, k, acc) is Ok,
    ensures
        read_args(s.update(j, '+'), k, acc) == read_args(s, k, acc),
    decreases s.len() - k, 1nat,
{
    let s2 = s.update(j, '+');
    lemma_semi_at(s, j);
    lemma_semi_ws(s, j, k, false);
    lemma_ws_from(s, k, false);
    let j1 = ws(s, k);
    assert(at(s2, j1, ')') == at(s, j1, ')'));
    if k <= s.len() && !at(s, j1, ')') {
        lemma_semi_term(s, j, j1);
        let (t, m) = read_term(s, j1)->Ok_0;
        if m > j1 {
            lemma_semi_ws(s, j, m, false);
            lemma_ws_from(s, m, false);
            let k1 = ws(s, m);
            assert(at(s2, k1, ',') == at(s, k1, ','));
            assert(at(s2, k1, ')') == at(s, k1, ')'));
            if at(s, k1, ',') {
                lemma_semi_args(s, j, k1 + 1, acc.push(t));
            }
        }
    }
}

proof fn lemma_semi_rays(s: Seq<char>, j: int, k: nat, acc: Seq<TermV>)
    requires
        0 <= j < s.len(),
        s[j] == ';',
        read_rays(s, k, acc) is Ok,
    ensures
        read_rays(s.update(j, '+'), k, acc) == read_rays(s, k, acc),
    decreases s.len() - k,
{
    let s2 = s.update(j, '+');
    lemma_semi_at(s, j);
    if k <= s.len() {
        lemma_semi_term(s, j, k);
        let (t, m) = read_term(s, k)->Ok_0;
        if m > k {
            lemma_semi_ws(s, j, m, false);
            lemma_ws_from(s, m, false);
            let k1 = ws(s, m);
            assert(at(s2, k1, ',') == at(s, k1, ','));
            assert(at(s2, k1, ']') == at(s, k1, ']'));
            if at(s, k1, ',') {
                lemma_semi_rays(s, j, k1 + 1, acc.push(t));
            }
        }
    }
}

proof fn lemma_semi_star(s: Seq<char>, j: int, i: nat)
    requires
        0 <= j < s.len(),
        s[j] == ';',
        read_star(s, i) is Ok,
    ensures
        read_star(s.update(j, '+'), i) == read_star(s, i),
{
    let s2 = s.update(j, '+');
    lemma_semi_at(s, j);
    lemma_semi_ws(s, j, i, false);
    let i1 = ws(s, i);
    assert(at(s2, i1, '[') == at(s, i1, '['));
    lemma_semi_ws(s, j, i1 + 1, false);
    let i2 = ws(s, i1 + 1);
    assert(at(s2, i2, ']') == at(s, i2, ']'));
    if at(s, i1, '[') && !at(s, i2, ']') {
        lemma_semi_rays(s, j, i2, Seq::empty());
    }
}

proof fn lemma_semi_stars(s: Seq<char>, j: int, i: nat, acc: Seq<Seq<TermV>>)
    requires
        0 <= j < s.len(),
        s[j] == ';',
        read_stars(s, i, acc) is Ok,
    ensures
        read_stars(s.update(j, '+'), i, acc) == read_stars(s, i, acc),
    decreases s.len() - i,
{
    let s2 = s.update(j, '+');
    lemma_semi_at(s, j);
    lemma_semi_star(s, j, i);
    let (st, k) = read_star(s, i)->Ok_0;
    lemma_semi_seps(s, j, k, false);
    let (k1, saw) = read_seps(s, k, false);
    lemma_semi_skip_lines(s, j, k1);
    let k2 = skip_lines(s, k1);
    assert(at(s2, k2, '[') == at(s, k2, '['));
    if k2 < s.len() && at(s, k2, '[') && k2 > i {
        lemma_semi_stars(s, j, k2, acc.push(st));
    }
}

proof fn lemma_lead_spaces(s: Seq<char>)
    ensures
        lead(s) <= s.len(),
        forall|k: int| 0 <= k < lead(s) ==> is_space(#[trigger] s[k]),
    decreases s.len(),
{
    if s.len() > 0 && is_space(s[0]) {
        lemma_lead_spaces(s.drop_first());
        assert forall|k: int| 0 <= k < lead(s) implies is_space(#[trigger] s[k]) by {
            if k > 0 {
                assert(s[k] == s.drop_first()[k - 1]);
            }
        }
    }
}

proof fn lemma_trail_spaces(s: Seq<char>)
    ensures
        trail(s) <= s.len(),
        forall|k: int| s.len() - trail(s) <= k < s.len() ==> is_space(#[trigger] s[k]),
    decreases s.len(),
{
    if s.len() > 0 && is_space(s.last()) {
        lemma_trail_spaces(s.drop_last());
        assert forall|k: int| s.len() - trail(s) <= k < s.len() implies is_space(#[trigger] s[k]) by {
            if k < s.len() - 1 {
                assert(s[k] == s.drop_last()[k]);
            }
        }
    }
}

proof fn lemma_semi_lead(s: Seq<char>, j: int)
    requires
        0 <= j < s.len(),
        s[j] == ';',
    ensures
        lead(s.update(j, '+')) == lead(s),
    decreases s.len(),
{
    let s2 = s.update(j, '+');
    if j == 0 {
    } else if is_space(s[0]) {
        assert(s2[0] == s[0]);
        assert(s2.drop_first() =~= s.drop_first().update(j - 1, '+'));
        lemma_semi_lead(s.drop_first(), j - 1);
    } else {
        assert(s2[0] == s[0]);
    }
}

proof fn lemma_semi_trail(s: Seq<char>, j: int)
    requires
        0 <= j < s.len(),
        s[j] == ';',
    ensures
        trail(s.update(j, '+')) == trail(s),
    decreases s.len(),
{
    let s2 = s.update(j, '+');
    if j == s.len() - 1 {
    } else if is_space(s.last()) {
        assert(s2.last() == s.last());
        assert(s2.drop_last() =~= s.drop_last().update(j, '+'));
        lemma_semi_trail(s.drop_last(), j);
    } else {
        assert(s2.last() == s.last());
    }
}

/// `;` separates stars exactly as `+` does: in any text that parses, putting
/// `+` in place of any `;` gives the same constellation. For instance
/// `[+f(X)]; [-f(X)]` and `[+f(X)] + [-f(X)]` give the same two stars.
pub proof fn lemma_parsed_semicolon_as_plus(src: Seq<char>, j: int)
    requires
        0 <= j < src.len(),
        src[j] == ';',
        parsed(src) is Ok,
    ensures
        parsed(src.update(j, '+')) == parsed(src),
{
    let s2 = src.update(j, '+');
    lemma_semi_lead(src, j);
    lemma_semi_trail(src, j);
    lemma_lead_spaces(src);
    lemma_trail_spaces(src);
    let l = lead(src);
    let r = trail(src);
    assert(!is_space(src[j]));
    assert(l <= j);
    assert(j < src.len() - r);
    assert(lead(src) != src.len());
    let t = trimmed(src);
    let jt = j - l;
    assert(trimmed(s2) =~= t.update(jt, '+'));
    assert(t[jt] == ';');
    lemma_semi_stars(t, jt, 0, Seq::empty());
    let (c, i) = read_stars(t, 0, Seq::empty())->Ok_0;
    lemma_semi_skip_lines(t, jt, i);
}

} // verus!
