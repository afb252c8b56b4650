//! Perturbing environments for the perturbation-response harness.
//!
//! `perturbing_env(k)` builds `k` noise stars meant for the linear
//! interaction space. Star `i` carries the single negative ray
//! `-s(_N<i>)`, where `s` cycles through the agent-side vocabulary
//! `sense, act, add, state, tape`: each noise star competes for the same
//! positive rays that a closure's agent side needs.
//!
//! The superseded construction, `perturbing_env_confounded_legacy`, is kept
//! for comparison: it yields stars with fresh symbols that never interact.
use vstd::prelude::*;
use vstd::string::StringExecFns;
use crate::term::{lemma_views_of, views_of, Polarity, Term, TermV};
use crate::constellation::{cons_v, Constellation, Star};
use crate::display::{digits, usize_text};
use crate::termkit::{app_s, konst_s, tconst, tvar, var};

verus! {

broadcast use vstd::std_specs::vec::group_vec_axioms;

/// The agent-side vocabulary, cycled through by the noise stars.
pub open spec fn vocab(i: nat) -> Seq<char> {
    let k = i % 5;
    if k == 0 {
        seq!['s', 'e', 'n', 's', 'e']
    } else if k == 1 {
        seq!['a', 'c', 't']
    } else if k == 2 {
        seq!['a', 'd', 'd']
    } else if k == 3 {
        seq!['s', 't', 'a', 't', 'e']
    } else {
        seq!['t', 'a', 'p', 'e']
    }
}

/// Noise star number `i`: `[-vocab(i)(_N<i>)]`.
pub open spec fn noise_star(i: nat) -> Seq<TermV> {
    seq![TermV::App(vocab(i), Polarity::Neg, seq![tvar(seq!['_', 'N'] + digits(i))])]
}

/// The perturbing environment of the given strength.
pub open spec fn perturbing_env_spec(strength: nat) -> Seq<Seq<TermV>> {
    Seq::new(strength, |i: int| noise_star(i as nat))
}

/// Legacy star number `i`: `[+perturb_<i>(noise_<i>_c)]`.
pub open spec fn legacy_star(i: nat) -> Seq<TermV> {
    seq![
        TermV::App(
            seq!['p', 'e', 'r', 't', 'u', 'r', 'b', '_'] + digits(i),
            Polarity::Pos,
            seq![tconst(seq!['n', 'o', 'i', 's', 'e', '_'] + digits(i) + seq!['_', 'c'])],
        ),
    ]
}

/// The legacy environment: one inert star at strength 0, else one star
/// with fresh symbols per unit of strength.
pub open spec fn legacy_env_spec(strength: nat) -> Seq<Seq<TermV>> {
    if strength == 0 {
        seq![
            seq![
                TermV::App(
                    seq!['i', 'n', 'e', 'r', 't', '_', 'z', 'e', 'r', 'o'],
                    Polarity::Pos,
                    seq![tconst(seq!['i', 'n', 'e', 'r', 't', '_', 'c'])],
                ),
            ],
        ]
    } else {
        Seq::new(strength, |i: int| legacy_star(i as nat))
    }
}

/// The name of the vocabulary word for noise star `i`.
fn vocab_word(i: usize) -> (r: String)
    ensures
        r@ == vocab(i as nat),
{
    proof {
        reveal_strlit("sense");
        reveal_strlit("act");
        reveal_strlit("add");
        reveal_strlit("state");
        reveal_strlit("tape");
    }
    let k = i % 5;
    if k == 0 {
        String::from_str("sense")
    } else if k == 1 {
        String::from_str("act")
    } else if k == 2 {
        String::from_str("add")
    } else if k == 3 {
        String::from_str("state")
    } else {
        String::from_str("tape")
    }
}

/// One noise star.
fn noise(i: usize) -> (s: Star)
    ensures
        views_of(s@) == noise_star(i as nat),
{
    proof {
        reveal_strlit("_N");
        assert("_N"@ =~= seq!['_', 'N']);
    }
    let name = String::from_str("_N").concat(usize_text(i).as_str());
    let x = var(name.as_str());
    let args = vec![x];
    proof {
        lemma_views_of(args@);
        assert(views_of(args@) =~= seq![tvar(seq!['_', 'N'] + digits(i as nat))]);
    }
    let word = vocab_word(i);
    let ray = app_s(&word, Polarity::Neg, args);
    let s = vec![ray];
    proof {
        lemma_views_of(s@);
        assert(views_of(s@) =~= noise_star(i as nat));
    }
    s
}

/// The perturbing environment: `strength` noise stars, star `i` carrying the
/// single negative ray `-vocab(i)(_N<i>)`; strength 0 gives no star.
pub fn perturbing_env(strength: u32) -> (r: Vec<Star>)
    ensures
        cons_v(r@) == perturbing_env_spec(strength as nat),
        r.len() == strength,
{
    let mut r: Vec<Star> = Vec::new();
    let mut i: u32 = 0;
    while i < strength
        invariant
            i <= strength,
            r.len() == i,
            forall|j: int| 0 <= j < i ==> #[trigger] views_of(r@[j]@) == noise_star(j as nat),
        decreases strength - i,
    {
        let s = noise(i as usize);
        r.push(s);
        i += 1;
    }
    assert(cons_v(r@) =~= perturbing_env_spec(strength as nat));
    r
}

/// One legacy star.
fn legacy(i: usize) -> (s: Star)
    ensures
        views_of(s@) == legacy_star(i as nat),
{
    proof {
        reveal_strlit("perturb_");
        reveal_strlit("noise_");
        reveal_strlit("_c");
        assert("perturb_"@ =~= seq!['p', 'e', 'r', 't', 'u', 'r', 'b', '_']);
        assert("noise_"@ =~= seq!['n', 'o', 'i', 's', 'e', '_']);
        assert("_c"@ =~= seq!['_', 'c']);
    }
    let digits_i = usize_text(i);
    let head = String::from_str("perturb_").concat(digits_i.as_str());
    let arg_name = String::from_str("noise_").concat(digits_i.as_str()).concat("_c");
    let arg = konst_s(&arg_name);
    let ghost argv = arg@;
    let args = vec![arg];
    proof {
        lemma_views_of(args@);
        assert(views_of(args@) =~= seq![argv]);
        assert(argv == tconst(seq!['n', 'o', 'i', 's', 'e', '_'] + digits(i as nat) + seq!['_', 'c']));
        assert(head@ == seq!['p', 'e', 'r', 't', 'u', 'r', 'b', '_'] + digits(i as nat));
    }
    let ray = app_s(&head, Polarity::Pos, args);
    let s = vec![ray];
    proof {
        lemma_views_of(s@);
        assert(views_of(s@) =~= legacy_star(i as nat));
    }
    s
}

/// The superseded perturbing environment: at strength 0 the single inert
/// star `[+inert_zero(inert_c)]`; at strength `k` the `k` stars
/// `[+perturb_<i>(noise_<i>_c)]`, whose symbols occur nowhere else.
pub fn perturbing_env_confounded_legacy(strength: u32) -> (r: Constellation)
    ensures
        cons_v(r@) == legacy_env_spec(strength as nat),
{
    if strength == 0 {
        proof {
            reveal_strlit("inert_zero");
            reveal_strlit("inert_c");
            assert("inert_zero"@ =~= seq!['i', 'n', 'e', 'r', 't', '_', 'z', 'e', 'r', 'o']);
            assert("inert_c"@ =~= seq!['i', 'n', 'e', 'r', 't', '_', 'c']);
        }
        let c = konst_s(&String::from_str("inert_c"));
        let ghost cv = c@;
        let args = vec![c];
        proof {
            lemma_views_of(args@);
            assert(views_of(args@) =~= seq![cv]);
        }
        let ray = app_s(&String::from_str("inert_zero"), Polarity::Pos, args);
        let ghost rv = ray@;
        let s = vec![ray];
        proof {
            lemma_views_of(s@);
            assert(views_of(s@) =~= seq![rv]);
            assert(views_of(s@) =~= legacy_env_spec(0)[0]);
        }
        let r = vec![s];
        assert(cons_v(r@) =~= legacy_env_spec(0));
        r
    } else {
        let mut r: Vec<Star> = Vec::new();
        let mut i: u32 = 0;
        while i < strength
            invariant
                i <= strength,
                r.len() == i,
                forall|j: int| 0 <= j < i ==> #[trigger] views_of(r@[j]@) == legacy_star(j as nat),
            decreases strength - i,
        {
            let s = legacy(i as usize);
            r.push(s);
            i += 1;
        }
        assert(cons_v(r@) =~= legacy_env_spec(strength as nat));
        r
    }
}

/// Whether M5 (cross-level closure bleed) fires; `Undetermined` when no
/// member has nested closures, and never read as a pass.
#[derive(Debug, Clone, Copy, PartialEq, Eq, Structural)]
pub enum M5Status {
    Fires,
    DoesNotFire,
    Undetermined,
}

/// The verdicts of a closure's perturbation-response profile: whether its
/// viability tracks the perturbation strength, and whether it does not track
/// the round cap. (The score series themselves are measured outside.)
#[derive(Debug, Clone, Copy, PartialEq, Eq, Structural)]
pub struct ResponseProfile {
    pub perturbation_tracking: bool,
    pub cap_invariant: bool,
}

/// The evidence on one corpus member: how many closures the principled
/// search found, a profile per closure, whether the principled search was
/// used, and whether this is the invariant control.
#[derive(Debug, Clone)]
pub struct MemberReformEvidence {
    pub name: String,
    pub closures_found: usize,
    pub profiles: Vec<ResponseProfile>,
    pub found_by_principled_search: bool,
    pub is_invariant_control: bool,
}

/// M1 (smuggled individuation): no non-control member searched in the
/// principled way found a closure.
pub open spec fn m1_spec(ev: Seq<MemberReformEvidence>) -> bool {
    forall|k: int|
        0 <= k < ev.len() && (#[trigger] ev[k]).found_by_principled_search && !ev[k].is_invariant_control
            ==> ev[k].closures_found == 0
}

/// M2 (invariance): no profile of a non-control member tracks the
/// perturbation.
pub open spec fn m2_spec(ev: Seq<MemberReformEvidence>) -> bool {
    forall|k: int, q: int|
        0 <= k < ev.len() && !ev[k].is_invariant_control && 0 <= q < ev[k].profiles@.len()
            ==> !(#[trigger] ev[k].profiles@[q]).perturbation_tracking
}

/// A profile is an artifact: for the invariant control, when it tracks
/// the perturbation; otherwise, when it is not cap-invariant or does not
/// track the perturbation.
pub open spec fn artifact(control: bool, p: ResponseProfile) -> bool {
    if control {
        p.perturbation_tracking
    } else {
        !p.cap_invariant || !p.perturbation_tracking
    }
}

/// M3 (artifact): some member has an artifact profile.
pub open spec fn m3_spec(ev: Seq<MemberReformEvidence>) -> bool {
    exists|k: int, q: int|
        0 <= k < ev.len() && 0 <= q < ev[k].profiles@.len() && artifact(
            ev[k].is_invariant_control,
            #[trigger] ev[k].profiles@[q],
        )
}

/// M4 (engineered one level up): some member bypassed the principled search.
pub open spec fn m4_spec(ev: Seq<MemberReformEvidence>) -> bool {
    exists|k: int| 0 <= k < ev.len() && !(#[trigger] ev[k]).found_by_principled_search
}

/// M1 gate: fires (a falsification signal) iff no principled-search,
/// non-control member found a closure; vacuously when there is none.
pub fn m1_fires(evidence: &[MemberReformEvidence]) -> (r: bool)
    ensures
        r == m1_spec(evidence@),
{
    let mut k: usize = 0;
    while k < evidence.len()
        invariant
            k <= evidence@.len(),
            forall|m: int|
                0 <= m < k && (#[trigger] evidence@[m]).found_by_principled_search
                    && !evidence@[m].is_invariant_control ==> evidence@[m].closures_found == 0,
        decreases evidence@.len() - k,
    {
        let m = &evidence[k];
        if m.found_by_principled_search && !m.is_invariant_control && m.closures_found != 0 {
            return false;
        }
        k += 1;
    }
    true
}

/// M2 gate: fires iff every profile of every non-control member is flat
/// (does not track the perturbation); vacuously when there is none.
pub fn m2_fires(evidence: &[MemberReformEvidence]) -> (r: bool)
    ensures
        r == m2_spec(evidence@),
{
    let mut k: usize = 0;
    while k < evidence.len()
        invariant
            k <= evidence@.len(),
            forall|m: int, q: int|
                0 <= m < k && !evidence@[m].is_invariant_control && 0 <= q < evidence@[m].profiles@.len()
                    ==> !(#[trigger] evidence@[m].profiles@[q]).perturbation_tracking,
        decreases evidence@.len() - k,
    {
        let m = &evidence[k];
        if !m.is_invariant_control {
            let mut q: usize = 0;
            #[verifier::loop_isolation(false)]
            while q < m.profiles.len()
                invariant
                    q <= m.profiles@.len(),
                    forall|p: int| 0 <= p < q ==> !(#[trigger] m.profiles@[p]).perturbation_tracking,
                decreases m.profiles@.len() - q,
            {
                if m.profiles[q].perturbation_tracking {
                    assert(!evidence@[k as int].is_invariant_control);
                    return false;
                }
                q += 1;
            }
        }
        k += 1;
    }
    true
}

/// M3 gate: fires iff some non-control profile is an artifact (not
/// cap-invariant or not tracking), or the invariant control responds.
pub fn m3_fires(evidence: &[MemberReformEvidence]) -> (r: bool)
    ensures
        r == m3_spec(evidence@),
{
    let mut k: usize = 0;
    while k < evidence.len()
        invariant
            k <= evidence@.len(),
            forall|m: int, q: int|
                0 <= m < k && 0 <= q < evidence@[m].profiles@.len() ==> !artifact(
                    evidence@[m].is_invariant_control,
                    #[trigger] evidence@[m].profiles@[q],
                ),
        decreases evidence@.len() - k,
    {
        let m = &evidence[k];
        let mut q: usize = 0;
        #[verifier::loop_isolation(false)]
        while q < m.profiles.len()
            invariant
                q <= m.profiles@.len(),
                forall|p: int| 0 <= p < q ==> !artifact(m.is_invariant_control, #[trigger] m.profiles@[p]),
            decreases m.profiles@.len() - q,
        {
            let p = m.profiles[q];
            let bad = if m.is_invariant_control {
                p.perturbation_tracking
            } else {
                !p.cap_invariant || !p.perturbation_tracking
            };
            if bad {
                assert(artifact(evidence@[k as int].is_invariant_control, evidence@[k as int].profiles@[q as int]));
                return true;
            }
            q += 1;
        }
        k += 1;
    }
    false
}

/// M4 gate: fires iff some member bypassed the principled search.
pub fn m4_fires(evidence: &[MemberReformEvidence]) -> (r: bool)
    ensures
        r == m4_spec(evidence@),
{
    let mut k: usize = 0;
    while k < evidence.len()
        invariant
            k <= evidence@.len(),
            forall|m: int| 0 <= m < k ==> (#[trigger] evidence@[m]).found_by_principled_search,
        decreases evidence@.len() - k,
    {
        if !evidence[k].found_by_principled_search {
            return true;
        }
        k += 1;
    }
    false
}

/// Every noise star is a single negative ray, so it competes for positive
/// rays of its symbol (and strength 0 gives the empty environment).
pub proof fn lemma_noise_stars_negative(strength: nat, i: int)
    requires
        0 <= i < strength,
    ensures
        perturbing_env_spec(strength)[i].len() == 1,
        crate::polarised::head_pol(perturbing_env_spec(strength)[i][0]) == Polarity::Neg,
        perturbing_env_spec(0).len() == 0,
{
}

} // verus!
