//! Linear bit modulation of nil, signed integers and pairs.
//!
//! * `Nil` is written `00`;
//! * `Cons(h, t)` is written `11`, then `h`, then `t`;
//! * `Int(n)` is written with the sign digits `01` (for `n >= 0`) or `10`,
//!   then, for `|n| == 0`, the single digit `0`; otherwise `k` ones and a
//!   zero, where `k` is the number of 4-bit nibbles that `|n|` needs, and
//!   `|n|` in big-endian binary on exactly `4 * k` digits.
//!
//! Reading is the inverse: `demodulate(modulate(v))` gives back `v` and the
//! whole length of the code, for every value `v`.
use vstd::prelude::*;
use vstd::arithmetic::power2::{pow2, lemma_pow2_unfold, lemma_pow2_adds, lemma2_to64, lemma2_to64_rest};
use vstd::string::StringExecFns;
use crate::termkit::chars_of;

verus! {

broadcast use vstd::std_specs::vec::group_vec_axioms;

/// Nil, a signed integer, or a pair. Lists are right-nested pairs ending in `Nil`.
#[derive(Debug, PartialEq, Eq)]
pub enum MVal {
    Nil,
    Int(i128),
    Cons(Box<MVal>, Box<MVal>),
}

impl Clone for MVal {
    fn clone(&self) -> (r: Self)
        ensures
            r == *self,
        decreases self,
    {
        match self {
            MVal::Nil => MVal::Nil,
            MVal::Int(n) => MVal::Int(*n),
            MVal::Cons(h, t) => {
                let h2 = (**h).clone();
                let t2 = (**t).clone();
                MVal::Cons(Box::new(h2), Box::new(t2))
            },
        }
    }
}

pub open spec fn bit_char(one: bool) -> char {
    if one {
        '1'
    } else {
        '0'
    }
}

/// `a` in big-endian binary on exactly `w` digits (higher digits dropped).
pub open spec fn bin(a: nat, w: nat) -> Seq<char>
    decreases w,
{
    if w == 0 {
        Seq::empty()
    } else {
        bin(a / 2, (w - 1) as nat).push(bit_char(a % 2 == 1))
    }
}

/// The number written by a string of binary digits (big-endian).
pub open spec fn bin_val(s: Seq<char>) -> nat
    decreases s.len(),
{
    if s.len() == 0 {
        0
    } else {
        2 * bin_val(s.drop_last()) + if s.last() == '1' {
            1nat
        } else {
            0nat
        }
    }
}

/// The number of 4-bit nibbles that a positive magnitude needs.
pub open spec fn nibbles(a: nat) -> nat
    decreases a,
{
    if a < 16 {
        1
    } else {
        1 + nibbles(a / 16)
    }
}

pub open spec fn ones(k: nat) -> Seq<char> {
    Seq::new(k, |i: int| '1')
}

pub open spec fn magnitude(n: int) -> nat {
    if n >= 0 {
        n as nat
    } else {
        (-n) as nat
    }
}

/// The code of an integer.
pub open spec fn int_code(n: int) -> Seq<char> {
    let sign = if n >= 0 {
        seq!['0', '1']
    } else {
        seq!['1', '0']
    };
    let a = magnitude(n);
    if a == 0 {
        sign.push('0')
    } else {
        let k = nibbles(a);
        sign + ones(k).push('0') + bin(a, 4 * k)
    }
}

/// The code of a value.
pub open spec fn code(v: MVal) -> Seq<char>
    decreases v,
{
    match v {
        MVal::Nil => seq!['0', '0'],
        MVal::Int(n) => int_code(n as int),
        MVal::Cons(h, t) => seq!['1', '1'] + code(*h) + code(*t),
    }
}

/// Number of leading `'1'` digits.
pub open spec fn ones_count(s: Seq<char>) -> nat
    decreases s.len(),
{
    if s.len() > 0 && s[0] == '1' {
        1 + ones_count(s.skip(1))
    } else {
        0
    }
}

pub open spec fn all_bits(s: Seq<char>) -> bool {
    forall|i: int| 0 <= i < s.len() ==> s[i] == '0' || s[i] == '1'
}

/// An integer read from the front of `s`, whose two sign digits are `01` or `10`.
/// A zero may carry either sign, and the payload may carry leading zero nibbles.
pub open spec fn read_int(s: Seq<char>) -> Option<(MVal, nat)> {
    let k = ones_count(s.skip(2));
    if 2 + k >= s.len() || s[(2 + k) as int] != '0' {
        None
    } else if k == 0 {
        Some((MVal::Int(0), 3))
    } else {
        let end: nat = 3 + k + 4 * k;
        if end > s.len() {
            None
        } else {
            let a = bin_val(s.subrange((3 + k) as int, end as int));
            if s[0] == '1' {
                if a <= pow2(127) {
                    Some((MVal::Int((-(a as int)) as i128), end))
                } else {
                    None
                }
            } else {
                if a < pow2(127) {
                    Some((MVal::Int(a as i128), end))
                } else {
                    None
                }
            }
        }
    }
}

/// One value read from the front of `s`, with the number of digits it takes.
pub open spec fn read(s: Seq<char>) -> Option<(MVal, nat)>
    decreases s.len(),
{
    if s.len() < 2 {
        None
    } else if s[0] == '0' && s[1] == '0' {
        Some((MVal::Nil, 2))
    } else if s[0] == '1' && s[1] == '1' {
        match read(s.skip(2)) {
            None => None,
            Some((h, n1)) => if n1 <= s.len() - 2 {
                match read(s.skip((2 + n1) as int)) {
                    None => None,
                    Some((t, n2)) => Some((MVal::Cons(Box::new(h), Box::new(t)), 2 + n1 + n2)),
                }
            } else {
                None
            },
        }
    } else if (s[0] == '0' && s[1] == '1') || (s[0] == '1' && s[1] == '0') {
        read_int(s)
    } else {
        None
    }
}

/// What `demodulate` gives: nothing on a string with a character other than a
/// binary digit, else the value read from its front.
pub open spec fn demodulated(s: Seq<char>) -> Option<(MVal, nat)> {
    if all_bits(s) {
        read(s)
    } else {
        None
    }
}

/// What `demodulate_all` gives: the value read, where it takes the whole string.
pub open spec fn demodulated_all(s: Seq<char>) -> Option<MVal> {
    match demodulated(s) {
        Some((v, n)) => if n == s.len() {
            Some(v)
        } else {
            None
        },
        None => None,
    }
}

proof fn lemma_pow2_values()
    ensures
        pow2(127) == 0x8000_0000_0000_0000_0000_0000_0000_0000,
        pow2(128) == 0x1_0000_0000_0000_0000_0000_0000_0000_0000,
{
    lemma2_to64();
    lemma2_to64_rest();
    lemma_pow2_adds(63, 64);
    lemma_pow2_adds(64, 64);
}

proof fn lemma_pow2_add4(m: nat)
    ensures
        pow2(m + 4) == 16 * pow2(m),
{
    lemma_pow2_adds(m, 4);
    lemma2_to64();
}

proof fn lemma_nibbles_pos(a: nat)
    ensures
        nibbles(a) >= 1,
    decreases a,
{
    if a >= 16 {
        lemma_nibbles_pos(a / 16);
    }
}

/// A magnitude below `2^(4j)` needs at most `j` nibbles.
proof fn lemma_nibbles_at_most(a: nat, j: nat)
    requires
        j >= 1,
        a < pow2(4 * j),
    ensures
        nibbles(a) <= j,
    decreases j,
{
    if a >= 16 {
        lemma2_to64();
        if j == 1 {
            assert(false);
        } else {
            lemma_pow2_add4((4 * (j - 1)) as nat);
            assert(4 * j == 4 * (j - 1) + 4);
            lemma_nibbles_at_most(a / 16, (j - 1) as nat);
        }
    }
}

/// A positive magnitude fits the payload width it is given.
proof fn lemma_fits_nibbles(a: nat)
    requires
        a > 0,
    ensures
        a < pow2(4 * nibbles(a)),
    decreases a,
{
    lemma2_to64();
    if a >= 16 {
        lemma_fits_nibbles(a / 16);
        let j = nibbles(a / 16);
        lemma_pow2_add4(4 * j);
        assert(4 * nibbles(a) == 4 * j + 4);
    }
}

/// Reading back the binary digits of a number that fits gives the number.
proof fn lemma_bin_val_bin(a: nat, w: nat)
    requires
        a < pow2(w),
    ensures
        bin_val(bin(a, w)) == a,
        bin(a, w).len() == w,
        all_bits(bin(a, w)),
    decreases w,
{
    if w == 0 {
        lemma2_to64();
    } else {
        lemma_pow2_unfold(w);
        lemma_bin_val_bin(a / 2, (w - 1) as nat);
        let s = bin(a, w);
        assert(s.drop_last() =~= bin(a / 2, (w - 1) as nat));
    }
}

/// A longer run of digits never reads as a smaller number.
proof fn lemma_bin_val_prefix(s: Seq<char>, i: int)
    requires
        0 <= i <= s.len(),
    ensures
        bin_val(s.take(i)) <= bin_val(s),
    decreases s.len() - i,
{
    if i < s.len() {
        lemma_bin_val_prefix(s, i + 1);
        assert(s.take(i + 1).drop_last() =~= s.take(i));
    } else {
        assert(s.take(i) =~= s);
    }
}

proof fn lemma_ones_count_code(k: nat, rest: Seq<char>)
    ensures
        ones_count(ones(k).push('0') + rest) == k,
    decreases k,
{
    let s = ones(k).push('0') + rest;
    if k > 0 {
        assert(s.skip(1) =~= ones((k - 1) as nat).push('0') + rest);
        lemma_ones_count_code((k - 1) as nat, rest);
    }
}

proof fn lemma_code_bits(v: MVal)
    ensures
        all_bits(code(v)),
        code(v).len() >= 2,
    decreases v,
{
    match v {
        MVal::Nil => {},
        MVal::Int(n) => {
            let a = magnitude(n as int);
            if a > 0 {
                lemma_fits_nibbles(a);
                lemma_bin_val_bin(a, 4 * nibbles(a));
            }
        },
        MVal::Cons(h, t) => {
            lemma_code_bits(*h);
            lemma_code_bits(*t);
        },
    }
}

proof fn lemma_read_int_code(n: i128, rest: Seq<char>)
    ensures
        read(int_code(n as int) + rest) == Some((MVal::Int(n), int_code(n as int).len())),
{
    let s = int_code(n as int) + rest;
    let a = magnitude(n as int);
    lemma_pow2_values();
    if a == 0 {
        assert(s.skip(2) =~= seq!['0'] + rest);
        assert(ones_count(s.skip(2)) == 0);
    } else {
        let k = nibbles(a);
        lemma_fits_nibbles(a);
        lemma_bin_val_bin(a, 4 * k);
        assert(s.skip(2) =~= ones(k).push('0') + (bin(a, 4 * k) + rest));
        lemma_ones_count_code(k, bin(a, 4 * k) + rest);
        let end: nat = 3 + k + 4 * k;
        assert(s.subrange((3 + k) as int, end as int) =~= bin(a, 4 * k));
        assert(s[(2 + k) as int] == '0');
    }
}

/// Reading the code of a value, whatever follows it, gives the value back and
/// the length of its code.
pub proof fn lemma_read_code(v: MVal, rest: Seq<char>)
    ensures
        read(code(v) + rest) == Some((v, code(v).len())),
    decreases v,
{
    match v {
        MVal::Nil => {},
        MVal::Int(n) => {
            lemma_read_int_code(n, rest);
        },
        MVal::Cons(h, t) => {
            let s = code(v) + rest;
            assert(s.skip(2) =~= code(*h) + (code(*t) + rest));
            lemma_read_code(*h, code(*t) + rest);
            lemma_code_bits(*h);
            let n1 = code(*h).len();
            assert(s.skip((2 + n1) as int) =~= code(*t) + rest);
            lemma_read_code(*t, rest);
        },
    }
}

proof fn lemma_ones_count_agree(x: Seq<char>, y: Seq<char>, m: nat)
    requires
        m < x.len(),
        m < y.len(),
        forall|i: int| 0 <= i <= m ==> x[i] == y[i],
        ones_count(x) <= m,
    ensures
        ones_count(y) == ones_count(x),
    decreases m,
{
    if x[0] == '1' {
        assert forall|i: int| 0 <= i <= m - 1 implies x.skip(1)[i] == y.skip(1)[i] by {
            assert(x.skip(1)[i] == x[i + 1]);
            assert(y.skip(1)[i] == y[i + 1]);
        }
        lemma_ones_count_agree(x.skip(1), y.skip(1), (m - 1) as nat);
    }
}

proof fn lemma_read_int_prefix(s: Seq<char>, t: Seq<char>)
    requires
        read_int(s) is Some,
    ensures
        ({
            let (v, e) = read_int(s).unwrap();
            &&& 3 <= e <= s.len()
            &&& read_int(s.take(e as int) + t) == Some((v, e))
        }),
{
    let (v, e) = read_int(s).unwrap();
    let k = ones_count(s.skip(2));
    let s2 = s.take(e as int) + t;
    assert(3 + k <= e);
    assert forall|i: int| 0 <= i <= k implies s.skip(2)[i] == s2.skip(2)[i] by {
        assert(s.skip(2)[i] == s[i + 2]);
        assert(s2.skip(2)[i] == s2[i + 2]);
    }
    lemma_ones_count_agree(s.skip(2), s2.skip(2), k);
    assert(s2[(2 + k) as int] == s[(2 + k) as int]);
    assert(s2[0] == s[0]);
    if k > 0 {
        let end: nat = 3 + k + 4 * k;
        assert(s2.subrange((3 + k) as int, end as int) =~= s.subrange((3 + k) as int, end as int));
    }
}

/// Codes are self-delimiting: a value read from the front of `s` takes at
/// least two and at most `s.len()` digits, and reading the digits it took,
/// followed by anything at all, gives the same value and length.
pub proof fn lemma_read_self_delimiting(s: Seq<char>, t: Seq<char>)
    requires
        read(s) is Some,
    ensures
        ({
            let (v, e) = read(s).unwrap();
            &&& 2 <= e <= s.len()
            &&& read(s.take(e as int) + t) == Some((v, e))
        }),
    decreases s.len(),
{
    let (v, e) = read(s).unwrap();
    let s2 = s.take(e as int) + t;
    if s[0] == '0' && s[1] == '0' {
        assert(s2[0] == s[0] && s2[1] == s[1]);
    } else if s[0] == '1' && s[1] == '1' {
        let (h, n1) = read(s.skip(2)).unwrap();
        let rest = s.skip((2 + n1) as int);
        let (tl, n2) = read(rest).unwrap();
        lemma_read_self_delimiting(s.skip(2), rest.take(n2 as int) + t);
        lemma_read_self_delimiting(rest, t);
        assert(s2[0] == s[0] && s2[1] == s[1]);
        assert(s2.skip(2) =~= s.skip(2).take(n1 as int) + (rest.take(n2 as int) + t));
        assert(s2.skip((2 + n1) as int) =~= rest.take(n2 as int) + t);
    } else {
        lemma_read_int_prefix(s, t);
        assert(s2[0] == s[0] && s2[1] == s[1]);
    }
}

/// Reading at any position `pos` is self-delimiting: where a value is read there
/// and ends at `pos + n`, it takes at least two digits, ends within `s`, and the
/// same read at `pos` gives the same value and end whatever follows `pos + n`.
pub proof fn lemma_read_at_self_delimiting(s: Seq<char>, pos: int, t: Seq<char>)
    requires
        0 <= pos <= s.len(),
        read(s.skip(pos)) is Some,
    ensures
        ({
            let (v, n) = read(s.skip(pos)).unwrap();
            &&& pos + 2 <= pos + n <= s.len()
            &&& read((s.take(pos + n) + t).skip(pos)) == Some((v, n))
        }),
{
    let (v, n) = read(s.skip(pos)).unwrap();
    lemma_read_self_delimiting(s.skip(pos), t);
    assert((s.take(pos + n) + t).skip(pos) =~= s.skip(pos).take(n as int) + t);
}

/// `demodulate` is self-delimiting: where it reads a value that takes `n`
/// digits, replacing everything after those digits by any binary digits gives
/// the same value and length.
pub proof fn lemma_demodulate_self_delimiting(s: Seq<char>, t: Seq<char>)
    requires
        demodulated(s) is Some,
        all_bits(t),
    ensures
        ({
            let (v, n) = demodulated(s).unwrap();
            &&& 2 <= n <= s.len()
            &&& demodulated(s.take(n as int) + t) == Some((v, n))
        }),
{
    let (v, n) = demodulated(s).unwrap();
    lemma_read_self_delimiting(s, t);
    let s2 = s.take(n as int) + t;
    assert forall|i: int| 0 <= i < s2.len() implies s2[i] == '0' || s2[i] == '1' by {
        if i < n {
            assert(s2[i] == s[i]);
        } else {
            assert(s2[i] == t[i - n]);
        }
    }
}

/// Round trip: demodulating the modulation of any value gives the value back,
/// together with the length of the whole code; `demodulate_all` gives the value.
pub proof fn lemma_demodulate_modulate(v: MVal)
    ensures
        demodulated(code(v)) == Some((v, code(v).len())),
        demodulated_all(code(v)) == Some(v),
{
    lemma_read_code(v, Seq::empty());
    assert(code(v) + Seq::<char>::empty() =~= code(v));
    lemma_code_bits(v);
}

fn push_bits(a: u128, w: usize, out: &mut String)
    ensures
        final(out)@ == old(out)@ + bin(a as nat, w as nat),
    decreases w,
{
    if w > 0 {
        push_bits(a / 2, w - 1, out);
        proof {
            reveal_strlit("1");
            reveal_strlit("0");
        }
        if a % 2 == 1 {
            out.append("1");
        } else {
            out.append("0");
        }
        assert(final(out)@ =~= old(out)@ + bin(a as nat, w as nat));
    }
}

fn magnitude_of(n: i128) -> (a: u128)
    ensures
        a as nat == magnitude(n as int),
{
    if n >= 0 {
        n as u128
    } else if n == i128::MIN {
        0x8000_0000_0000_0000_0000_0000_0000_0000u128
    } else {
        (-n) as u128
    }
}

fn nibble_count(a: u128) -> (k: usize)
    requires
        a > 0,
    ensures
        k as nat == nibbles(a as nat),
        1 <= k <= 32,
{
    proof {
        lemma_pow2_values();
        assert(4 * 32nat == 128);
        lemma_nibbles_at_most(a as nat, 32);
    }
    let mut k: usize = 1;
    let mut m: u128 = a;
    while m >= 16
        invariant
            1 <= k,
            k + nibbles(m as nat) == nibbles(a as nat) + 1,
            nibbles(a as nat) <= 32,
        decreases m,
    {
        proof {
            lemma_nibbles_pos((m / 16) as nat);
        }
        m = m / 16;
        k = k + 1;
    }
    k
}

fn modulate_int_into(n: i128, out: &mut String)
    ensures
        final(out)@ == old(out)@ + int_code(n as int),
{
    proof {
        reveal_strlit("01");
        reveal_strlit("10");
        reveal_strlit("0");
        reveal_strlit("1");
    }
    if n >= 0 {
        out.append("01");
    } else {
        out.append("10");
    }
    let a = magnitude_of(n);
    if a == 0 {
        out.append("0");
        assert(final(out)@ =~= old(out)@ + int_code(n as int));
        return;
    }
    let k = nibble_count(a);
    let ghost before = out@;
    let mut i: usize = 0;
    while i < k
        invariant
            i <= k,
            out@ == before + ones(i as nat),
        decreases k - i,
    {
        proof {
            reveal_strlit("1");
        }
        out.append("1");
        i += 1;
        assert(out@ =~= before + ones(i as nat));
    }
    out.append("0");
    push_bits(a, 4 * k, out);
    assert(final(out)@ =~= old(out)@ + int_code(n as int));
}

fn modulate_into(v: &MVal, out: &mut String)
    ensures
        final(out)@ == old(out)@ + code(*v),
    decreases v,
{
    proof {
        reveal_strlit("00");
        reveal_strlit("11");
    }
    match v {
        MVal::Nil => {
            out.append("00");
        },
        MVal::Cons(h, t) => {
            out.append("11");
            modulate_into(h, out);
            modulate_into(t, out);
            assert(final(out)@ =~= old(out)@ + code(*v));
        },
        MVal::Int(n) => {
            modulate_int_into(*n, out);
        },
    }
}

/// The code of `v`, a string of `'0'` and `'1'`.
pub fn modulate(v: &MVal) -> (r: String)
    ensures
        r@ == code(*v),
        all_bits(r@),
{
    let mut out = String::new();
    modulate_into(v, &mut out);
    proof {
        lemma_code_bits(*v);
        assert(out@ =~= code(*v));
    }
    out
}

proof fn lemma_ones_step(b: Seq<char>, p: int)
    requires
        0 <= p < b.len(),
        b[p] == '1',
    ensures
        ones_count(b.skip(p)) == 1 + ones_count(b.skip(p + 1)),
{
    assert(b.skip(p).skip(1) =~= b.skip(p + 1));
}

fn read_int_at(b: &Vec<char>, pos: usize) -> (r: Option<(MVal, usize)>)
    requires
        pos + 2 <= b.len(),
        (b@[pos as int] == '0' && b@[pos + 1] == '1') || (b@[pos as int] == '1' && b@[pos + 1] == '0'),
    ensures
        match r {
            None => read_int(b@.skip(pos as int)) is None,
            Some((v, e)) => pos <= e <= b.len() && read_int(b@.skip(pos as int)) == Some((v, (e - pos) as nat)),
        },
{
    let len = b.len();
    let ghost s = b@.skip(pos as int);
    let mut p = pos + 2;
    let mut k: usize = 0;
    proof {
        assert(s.skip(2) =~= b@.skip(p as int));
    }
    while p < len && b[p] == '1'
        invariant
            len == b.len(),
            pos + 2 <= p <= len,
            p == pos + 2 + k,
            ones_count(s.skip(2)) == k + ones_count(b@.skip(p as int)),
        decreases len - p,
    {
        proof {
            lemma_ones_step(b@, p as int);
        }
        k += 1;
        p += 1;
    }
    if p >= len {
        return None;
    }
    if b[p] != '0' {
        return None;
    }
    assert(ones_count(b@.skip(p as int)) == 0);
    assert(s[(2 + k) as int] == b@[p as int]);
    p += 1;
    if k == 0 {
        return Some((MVal::Int(0), p));
    }
    if k > (len - p) / 4 {
        return None;
    }
    let width = 4 * k;
    proof {
        lemma_pow2_values();
        assert(s.subrange((3 + k) as int, (3 + k + 4 * k) as int) =~= b@.subrange(
            p as int,
            (p + width) as int,
        ));
    }
    let end = p + width;
    match read_payload(b, p, width) {
        None => None,
        Some(a) => {
            if b[pos] == '1' {
                if a == 0x8000_0000_0000_0000_0000_0000_0000_0000u128 {
                    Some((MVal::Int(i128::MIN), end))
                } else {
                    let m = a as i128;
                    Some((MVal::Int(-m), end))
                }
            } else {
                if a == 0x8000_0000_0000_0000_0000_0000_0000_0000u128 {
                    None
                } else {
                    Some((MVal::Int(a as i128), end))
                }
            }
        },
    }
}

/// The number written by `width` digits from `p` on, where it is at most `2^127`.
fn read_payload(b: &Vec<char>, p: usize, width: usize) -> (r: Option<u128>)
    requires
        p + width <= b.len(),
    ensures
        match r {
            None => bin_val(b@.subrange(p as int, (p + width) as int)) > pow2(127),
            Some(a) => a as nat == bin_val(b@.subrange(p as int, (p + width) as int)) && a as nat
                <= pow2(127),
        },
{
    let ghost payload = b@.subrange(p as int, (p + width) as int);
    proof {
        lemma_pow2_values();
    }
    let mut a: u128 = 0;
    let mut i: usize = 0;
    while i < width
        invariant
            p + width <= b.len(),
            i <= width,
            payload == b@.subrange(p as int, (p + width) as int),
            a as nat == bin_val(payload.take(i as int)),
            pow2(127) == 0x8000_0000_0000_0000_0000_0000_0000_0000,
        decreases width - i,
    {
        assert(payload.take(i + 1).drop_last() =~= payload.take(i as int));
        if a >= 0x8000_0000_0000_0000_0000_0000_0000_0000u128 {
            proof {
                lemma_bin_val_prefix(payload, i + 1);
            }
            return None;
        }
        let bit: u128 = if b[p + i] == '1' {
            1
        } else {
            0
        };
        a = a * 2 + bit;
        i += 1;
    }
    assert(payload.take(width as int) =~= payload);
    if a > 0x8000_0000_0000_0000_0000_0000_0000_0000u128 {
        None
    } else {
        Some(a)
    }
}

fn read_at(b: &Vec<char>, pos: usize) -> (r: Option<(MVal, usize)>)
    requires
        pos <= b.len(),
    ensures
        match r {
            None => read(b@.skip(pos as int)) is None,
            Some((v, e)) => pos <= e <= b.len() && read(b@.skip(pos as int)) == Some((v, (e - pos) as nat)),
        },
    decreases b.len() - pos,
{
    let len = b.len();
    let ghost s = b@.skip(pos as int);
    if len - pos < 2 {
        return None;
    }
    let t0 = b[pos];
    let t1 = b[pos + 1];
    if t0 == '0' && t1 == '0' {
        return Some((MVal::Nil, pos + 2));
    }
    if t0 == '1' && t1 == '1' {
        proof {
            assert(b@.skip(pos + 2) =~= s.skip(2));
        }
        match read_at(b, pos + 2) {
            None => None,
            Some((h, p1)) => {
                proof {
                    let n1 = (p1 - pos - 2) as nat;
                    assert(b@.skip(p1 as int) =~= s.skip((2 + n1) as int));
                }
                match read_at(b, p1) {
                    None => None,
                    Some((t, p2)) => Some((MVal::Cons(Box::new(h), Box::new(t)), p2)),
                }
            },
        }
    } else if (t0 == '0' && t1 == '1') || (t0 == '1' && t1 == '0') {
        read_int_at(b, pos)
    } else {
        None
    }
}

/// Reads one value from the front of `bits`, with the number of digits it
/// takes; `None` on a string with a character other than `'0'` or `'1'`, or
/// whose front is no code.
pub fn demodulate(bits: &str) -> (r: Option<(MVal, usize)>)
    ensures
        match r {
            None => demodulated(bits@) is None,
            Some((v, n)) => demodulated(bits@) == Some((v, n as nat)),
        },
{
    let b = chars_of(bits);
    let mut i: usize = 0;
    while i < b.len()
        invariant
            b@ == bits@,
            i <= b.len(),
            forall|j: int| 0 <= j < i ==> b@[j] == '0' || b@[j] == '1',
        decreases b.len() - i,
    {
        if b[i] != '0' && b[i] != '1' {
            return None;
        }
        i += 1;
    }
    assert(b@.skip(0) =~= b@);
    read_at(&b, 0)
}

/// Reads one value that takes the whole of `bits`.
pub fn demodulate_all(bits: &str) -> (r: Option<MVal>)
    ensures
        r == demodulated_all(bits@),
{
    match demodulate(bits) {
        None => None,
        Some((v, used)) => {
            let n = bits.unicode_len();
            if used == n {
                Some(v)
            } else {
                None
            }
        },
    }
}

} // verus!
