use stella_core::constellation::{stars_alpha_equiv, Constellation, Star};
use stella_core::interactive::{
    fuse, iex, iex_concealed, iex_fast, iex_nfa_accepts, iex_spec, iex_tabled, iex_tabled_concealed, mat_phi, self_interact,
    step_detail,
};
use stella_core::constellation::conceal_and_filter;
use stella_core::polarised::{mk_app_str, neg_ray, pos_ray};
use stella_core::term::{mk_var, Term};

fn var(x: &str) -> Term {
    mk_var(x)
}
fn app(f: &str, args: Vec<Term>) -> Term {
    mk_app_str(f, args)
}
fn c(name: &str) -> Term {
    mk_app_str(name, vec![])
}

fn nat_term(n: usize) -> Term {
    let mut t = c("0");
    for _ in 0..n {
        t = app("s", vec![t]);
    }
    t
}

fn add_prog() -> Constellation {
    vec![
        vec![pos_ray("add", vec![c("0"), var("Y"), var("Y")])],
        vec![
            neg_ray("add", vec![var("X"), var("Y"), var("Z")]),
            pos_ray("add", vec![app("s", vec![var("X")]), var("Y"), app("s", vec![var("Z")])]),
        ],
    ]
}

fn query_star(m: usize, n: usize) -> Star {
    vec![neg_ray("add", vec![nat_term(m), nat_term(n), var("R")]), var("R")]
}

#[test]
fn iex_horn_2_plus_2() {
    let phi = add_prog();
    let psi = vec![query_star(2, 2)];
    let (visible, normal) = iex_concealed(&phi, psi, 500);
    assert!(normal, "IEx should reach normal form for Horn 2+2");
    let expected = vec![nat_term(4)];
    let found = visible.iter().any(|s| stars_alpha_equiv(s, &expected));
    assert!(found, "should contain [4]; got {:?}", visible);
}

#[test]
fn iex_horn_1_plus_1() {
    let phi = add_prog();
    let psi = vec![query_star(1, 1)];
    let raw = iex(&phi, vec![query_star(1, 1)], 200);
    println!("1+1: steps={} normal={} psi_len={}", raw.steps, raw.is_normal_form, raw.psi.len());
    let (visible, normal) = iex_concealed(&phi, psi, 200);
    assert!(normal, "IEx should reach normal form for Horn 1+1");
    let expected = vec![nat_term(2)];
    let found = visible.iter().any(|s| stars_alpha_equiv(s, &expected));
    assert!(found, "should contain [2]; got {:?}", visible);
}

/// The automaton of words over {0, 1} ending in "00": states q0 (initial),
/// q1, q2 (final); q0 -0-> q0, q0 -1-> q0, q0 -0-> q1, q1 -0-> q2.
fn nfa_phi() -> Constellation {
    let cons = |h: Term, t: Term| app("cons", vec![h, t]);
    let edge = |q: &str, letter: &str, q2: &str| -> Star {
        vec![
            neg_ray("a", vec![cons(c(letter), var("W")), c(q)]),
            pos_ray("a", vec![var("W"), c(q2)]),
        ]
    };
    vec![
        vec![neg_ray("i", vec![var("W")]), pos_ray("a", vec![var("W"), c("q0")])],
        edge("q0", "0", "q0"),
        edge("q0", "1", "q0"),
        edge("q0", "0", "q1"),
        edge("q1", "0", "q2"),
        vec![neg_ray("a", vec![c("eps"), c("q2")]), c("accept")],
    ]
}

fn word_star(word: &[&str]) -> Star {
    let mut t = c("eps");
    for letter in word.iter().rev() {
        t = app("cons", vec![c(letter), t]);
    }
    vec![pos_ray("i", vec![t])]
}

fn make_nfa_phi_and_psi(word: &[&str]) -> (Constellation, Vec<Star>) {
    (nfa_phi(), vec![word_star(word)])
}

#[test]
fn iex_nfa_accepts_00() {
    let (phi, psi) = make_nfa_phi_and_psi(&["0", "0"]);
    assert!(iex_nfa_accepts(&phi, psi, 500));
}

#[test]
fn iex_nfa_accepts_100() {
    let (phi, psi) = make_nfa_phi_and_psi(&["1", "0", "0"]);
    assert!(iex_nfa_accepts(&phi, psi, 500));
}

#[test]
fn iex_nfa_rejects_1() {
    let (phi, psi) = make_nfa_phi_and_psi(&["1"]);
    assert!(!iex_nfa_accepts(&phi, psi, 500));
}

#[test]
fn iex_nfa_rejects_10() {
    let (phi, psi) = make_nfa_phi_and_psi(&["1", "0"]);
    assert!(!iex_nfa_accepts(&phi, psi, 500));
}

#[test]
fn self_interact_basic() {
    let star: Star = vec![pos_ray("c", vec![var("X")]), neg_ray("c", vec![var("X")]), c("a")];
    let result = self_interact(&star, 0, 1);
    assert!(result.is_some(), "self-interaction should succeed");
    let res = result.unwrap();
    assert_eq!(res.len(), 1);
    assert_eq!(res[0], c("a"));
}

#[test]
fn fusion_basic() {
    let phi1: Star = vec![pos_ray("f", vec![var("X")]), c("a")];
    let phi2: Star = vec![neg_ray("f", vec![var("Y")]), c("b")];
    let result = fuse(&phi1, 0, &phi2, 0);
    assert!(result.is_some(), "fusion should succeed");
    let res = result.unwrap();
    assert_eq!(res.len(), 2);
}

#[test]
fn mat_phi_horn() {
    let phi = add_prog();
    let r = neg_ray("add", vec![nat_term(2), nat_term(2), var("R")]);
    let matches = mat_phi(&phi, &r);
    assert!(!matches.is_empty());
    assert!(matches.contains(&(1, 1)), "got {:?}", matches);
}

#[test]
fn iex_tabled_result_eq_iex() {
    let same_answers = |a: &[Star], b: &[Star]| -> bool {
        let av = conceal_and_filter(&a.to_vec());
        let bv = conceal_and_filter(&b.to_vec());
        let subset = |xs: &[Star], ys: &[Star]| {
            xs.iter().all(|x| ys.iter().any(|y| stars_alpha_equiv(x, y)))
        };
        subset(&av, &bv) && subset(&bv, &av)
    };

    // (a) Horn add(3,2) → [5̄].
    let phi = add_prog();
    let q = vec![query_star(3, 2)];
    let r = iex(&phi, q.clone(), 5000);
    let t = iex_tabled(&phi, q, 5000);
    assert!(t.is_normal_form, "tabled Horn must reach a true fixpoint");
    assert!(same_answers(&r.psi, &t.psi), "tabled Horn answer set differs from reference oracle");
}

#[test]
fn iex_tabled_drops_variants_of_initial_stars() {
    // A star that only reproduces a variant of itself: plain IEx runs out
    // of fuel, the tabled run stops at once.
    let phi: Constellation = vec![vec![pos_ray("loop", vec![var("X")]), neg_ray("loop", vec![var("Y")])]];
    let psi = vec![vec![neg_ray("loop", vec![var("Z")]), var("Z")]];
    let plain = iex(&phi, psi.clone(), 50);
    assert!(!plain.is_normal_form);
    assert_eq!(plain.steps, 50);
    let tabled = iex_tabled(&phi, psi, 50);
    assert_eq!(tabled.steps, 2);
    assert!(tabled.is_normal_form);
    assert!(tabled.psi.is_empty());
}

#[test]
fn iex_tabled_concealed_horn() {
    let phi = add_prog();
    let (visible, normal) = iex_tabled_concealed(&phi, vec![query_star(2, 2)], 500);
    assert!(normal);
    assert_eq!(visible.len(), 1);
    assert!(stars_alpha_equiv(&visible[0], &vec![nat_term(4)]));
}

#[test]
fn step_detail_is_faithful_and_exact() {
    let phi = add_prog();
    let psi = vec![query_star(2, 2)];
    let one = iex(&phi, psi.clone(), 1);
    let mut counter = 0u32;
    let det = step_detail(&phi, &psi, 0, 0, &mut counter).expect("redex");
    assert!(!det.summands.is_empty(), "step produced a non-empty sum");
    assert_eq!(det.psi_after.len(), one.psi.len(), "step_detail Ψ' size matches iex(fuel=1)");
    for (a, b) in det.psi_after.iter().zip(one.psi.iter()) {
        assert!(stars_alpha_equiv(a, b), "step_detail Ψ' is α-equal to iex's: {a:?} vs {b:?}");
    }
    let s = det.summands.iter().find(|s| s.external).expect("ext summand");
    assert!(!s.theta.is_empty() || s.result.len() <= 2, "a non-trivial fusion records a non-empty θ");
}

#[test]
fn step_detail_writes_theta_in_the_stars_own_names() {
    let phi = add_prog();
    let psi = vec![query_star(2, 2)];
    let mut counter = 7u32;
    let det = step_detail(&phi, &psi, 0, 0, &mut counter).expect("redex");
    assert_eq!(counter, 8);
    assert_eq!(det.star, 0);
    assert_eq!(det.ray, 0);
    assert_eq!(det.summands.len(), 1);
    let s = &det.summands[0];
    assert!(s.external);
    assert_eq!(s.phi_target, Some((1, 1)));
    assert_eq!(s.self_ray, None);
    let theta: Vec<(&str, &str)> = s.theta.iter().map(|(a, b)| (a.as_str(), b.as_str())).collect();
    assert_eq!(theta, vec![("R", "s(Z)"), ("X", "s(0)"), ("Y", "s(s(0))")]);
    assert_eq!(stella_core::display::star_text(&s.result), "[s(R2), -add(s(0), s(s(0)), R2)]");
    assert_eq!(det.psi_after.len(), 1);
}

#[test]
fn step_detail_self_interaction_and_refusals() {
    let phi: Constellation = vec![];
    let psi = vec![vec![pos_ray("a", vec![var("X")]), neg_ray("a", vec![app("f", vec![var("Y")])]), var("X")]];
    let mut counter = 0u32;
    let det = step_detail(&phi, &psi, 0, 0, &mut counter).expect("self redex");
    assert_eq!(counter, 0);
    assert_eq!(det.summands.len(), 1);
    let s = &det.summands[0];
    assert!(!s.external);
    assert_eq!(s.self_ray, Some(1));
    assert_eq!(s.theta, vec![("X".to_string(), "f(Y)".to_string())]);
    assert_eq!(stella_core::display::star_text(&det.psi_after[0]), "[f(Y)]");
    // Out of range, uncoloured ray, no partner.
    assert!(step_detail(&phi, &psi, 1, 0, &mut counter).is_none());
    assert!(step_detail(&phi, &psi, 0, 2, &mut counter).is_none());
    let lonely = vec![vec![pos_ray("b", vec![var("X")])]];
    assert!(step_detail(&phi, &lonely, 0, 0, &mut counter).is_none());
    assert_eq!(counter, 0);
}

/// ↨♭ answer sets agree up to α (both ways).
fn same_answers(a: &[Star], b: &[Star]) -> bool {
    let av = conceal_and_filter(&a.to_vec());
    let bv = conceal_and_filter(&b.to_vec());
    let subset = |xs: &[Star], ys: &[Star]| xs.iter().all(|x| ys.iter().any(|y| stars_alpha_equiv(x, y)));
    av.len() == bv.len() && subset(&av, &bv) && subset(&bv, &av)
}

#[test]
fn iex_fast_result_eq_iex() {
    // (a) Horn arithmetic (recursive Φ reuse).
    let phi = add_prog();
    let q = vec![query_star(3, 2)];
    let a = iex(&phi, q.clone(), 5000);
    let b = iex_fast(&phi, q, 5000);
    assert!(same_answers(&a.psi, &b.psi), "Horn: not result-equivalent");
    assert_eq!(a.is_normal_form, b.is_normal_form, "Horn: NF disagreement");
}

#[test]
fn iex_spec_result_eq_iex() {
    // (a) Horn arithmetic.
    let phi = add_prog();
    let q = vec![query_star(3, 2)];
    let h_ref = iex(&phi, q.clone(), 5000);
    let h_fast = iex_fast(&phi, q.clone(), 5000);
    let h_spec = iex_spec(&phi, q, 5000);
    assert!(same_answers(&h_ref.psi, &h_spec.psi), "Horn: spec ≢ iex");
    assert_eq!(h_spec.steps, h_fast.steps, "Horn: spec step-count ≠ iex_fast");
    assert_eq!(h_fast.psi.len(), h_spec.psi.len());
    assert!(h_fast.psi.iter().zip(h_spec.psi.iter()).all(|(x, y)| stars_alpha_equiv(x, y)), "Horn: spec ≇ iex_fast (α)");
    assert_eq!(h_ref.is_normal_form, h_spec.is_normal_form, "Horn: NF");
}

#[test]
fn iex_fast_resumes_past_dead_stars() {
    // Two stars without redexes ahead of two queries: the resumed scan takes
    // exactly the steps of the full scan.
    let phi = add_prog();
    let q = vec![
        vec![app("dead", vec![var("Z")])],
        vec![neg_ray("nothing", vec![var("W")])],
        query_star(2, 1),
        query_star(1, 3),
    ];
    let a = iex(&phi, q.clone(), 5000);
    let b = iex_fast(&phi, q.clone(), 5000);
    let t = iex_tabled(&phi, q, 5000);
    assert!(a.is_normal_form && b.is_normal_form && t.is_normal_form);
    assert_eq!(a.steps, b.steps);
    assert_eq!(a.psi.len(), b.psi.len());
    assert!(a.psi.iter().zip(b.psi.iter()).all(|(x, y)| stars_alpha_equiv(x, y)));
    assert!(same_answers(&a.psi, &t.psi));
}
