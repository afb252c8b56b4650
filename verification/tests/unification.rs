//! Terms, substitutions, unification, α-unification and matchability.
use stella_core::alpha::alpha_unify;
use stella_core::polarised::{matchable, mk_app_str, neg_ray, pos_ray};
use stella_core::subst::Substitution;
use stella_core::term::{Term, Var};
use stella_core::unify::{unify, Equation};

fn var(x: &str) -> Term {
    Term::var(x)
}
fn app(f: &str, args: Vec<Term>) -> Term {
    mk_app_str(f, args)
}
fn c(name: &str) -> Term {
    Term::constant(name)
}
fn eq(l: Term, r: Term) -> Equation {
    Equation::new(l, r)
}
fn check_unifier(sigma: &Substitution, lhs: &Term, rhs: &Term) -> bool {
    sigma.apply(lhs) == sigma.apply(rhs)
}

#[test]
fn term_vars() {
    let t = app("f", vec![var("X"), app("g", vec![var("Y"), var("X")])]);
    let vs = t.vars();
    assert!(vs.contains(&Var::intern("X")));
    assert!(vs.contains(&Var::intern("Y")));
    assert_eq!(vs.len(), 2);
}

#[test]
fn substitution_apply() {
    let theta = Substitution::from_pairs(vec![("X".into(), c("c")), ("Y".into(), c("c"))]);
    let t = app("f", vec![var("X"), var("Y")]);
    assert_eq!(theta.apply(&t), app("f", vec![c("c"), c("c")]));
}

#[test]
fn substitution_composition() {
    let theta2 = Substitution::from_pairs(vec![("X".into(), app("f", vec![var("Y")]))]);
    let theta1 = Substitution::from_pairs(vec![("Y".into(), c("c"))]);
    let composed = Substitution::compose(&theta1, &theta2);
    assert_eq!(composed.apply(&var("X")), app("f", vec![c("c")]));
}

#[test]
fn unify_clear_trivial() {
    let result = unify(vec![eq(var("X"), var("X"))]);
    assert!(result.is_some());
    let s = result.unwrap();
    assert_eq!(s.apply(&var("X")), var("X"));
}

#[test]
fn unify_open_decomposition() {
    let lhs = app("f", vec![var("X"), c("c")]);
    let rhs = app("f", vec![app("g", vec![var("Y")]), c("c")]);
    let result = unify(vec![eq(lhs, rhs)]);
    assert!(result.is_some());
    let s = result.unwrap();
    assert_eq!(s.apply(&var("X")), app("g", vec![var("Y")]));
}

#[test]
fn unify_orient_then_replace() {
    let result = unify(vec![eq(app("f", vec![c("c")]), var("Y"))]);
    assert!(result.is_some());
    let s = result.unwrap();
    assert_eq!(s.apply(&var("Y")), app("f", vec![c("c")]));
}

#[test]
fn unify_replace() {
    let result = unify(vec![
        eq(var("X"), c("c")),
        eq(app("f", vec![var("X")]), app("f", vec![c("c")])),
    ]);
    assert!(result.is_some());
    let s = result.unwrap();
    assert_eq!(s.apply(&var("X")), c("c"));
}

#[test]
fn unify_multi_equation() {
    let lhs = app("f", vec![var("X"), app("f", vec![var("Y")])]);
    let rhs = app("f", vec![app("g", vec![c("c"), c("c")]), var("Z")]);
    let result = unify(vec![eq(lhs.clone(), rhs.clone())]);
    assert!(result.is_some());
    let s = result.unwrap();
    assert!(check_unifier(&s, &lhs, &rhs));
}

#[test]
fn unify_occur_check_failure() {
    let result = unify(vec![eq(var("X"), app("f", vec![var("X")]))]);
    assert!(result.is_none(), "occur check must reject X =? f(X)");
}

#[test]
fn unify_clash_failure() {
    let result = unify(vec![eq(app("f", vec![var("X")]), app("g", vec![c("c")]))]);
    assert!(result.is_none(), "f ≠ g is a clash");
}

#[test]
fn unify_arity_mismatch() {
    let result = unify(vec![eq(
        app("f", vec![var("X"), var("Y")]),
        app("f", vec![var("X")]),
    )]);
    assert!(result.is_none());
}

#[test]
fn alpha_unify_simple() {
    let t1 = var("X");
    let t2 = app("f", vec![var("Y")]);
    assert!(alpha_unify(t1, t2).is_some());
}

#[test]
fn alpha_unify_shared_variable() {
    let t1 = app("f", vec![var("X")]);
    let t2 = app("g", vec![var("X")]);
    assert!(alpha_unify(t1, t2).is_none());
}

#[test]
fn alpha_unify_shared_var_compatible() {
    let t1 = app("f", vec![var("X")]);
    let t2 = app("f", vec![var("X")]);
    assert!(alpha_unify(t1, t2).is_some());
}

#[test]
fn matchable_pos_c_neg_c() {
    let r = pos_ray("c", vec![var("X")]);
    let rp = neg_ray("c", vec![c("0")]);
    assert!(matchable(&r, &rp), "+c(X) ⋈ -c(0) should hold");
}

#[test]
fn matchable_neg_d_pos_d() {
    let r = neg_ray("d", vec![var("X")]);
    let rp = pos_ray("d", vec![app("f", vec![var("X")])]);
    assert!(matchable(&r, &rp), "-d(X) ⋈ +d(f(X)) should hold");
}

#[test]
fn not_matchable_pos_c_unpolarised_f() {
    let r = pos_ray("c", vec![var("X")]);
    let rp = mk_app_str("f", vec![var("Y")]);
    assert!(!matchable(&r, &rp), "+c(X) should not match f(Y)");
}

#[test]
fn not_matchable_different_underlying() {
    let r = pos_ray("c", vec![var("X")]);
    let rp = neg_ray("d", vec![var("X")]);
    assert!(!matchable(&r, &rp), "+c(X) should not match -d(X)");
}

#[test]
fn not_matchable_same_polarity() {
    let r = pos_ray("c", vec![var("X")]);
    let rp = pos_ray("c", vec![app("f", vec![var("Y")])]);
    assert!(!matchable(&r, &rp), "+c(X) should not match +c(f(Y)) (same polarity)");
}

#[test]
fn not_matchable_terms_not_alpha_unifiable() {
    let r = pos_ray("c", vec![app("f", vec![var("X")])]);
    let rp = neg_ray("c", vec![app("g", vec![var("Y")])]);
    assert!(!matchable(&r, &rp), "+c(f(X)) should not match -c(g(Y))");
}

#[test]
fn matchable_anti_reflexive_positive() {
    let r = pos_ray("c", vec![var("X")]);
    assert!(!matchable(&r, &r), "⋈ is anti-reflexive");
}

#[test]
fn matchable_anti_reflexive_negative() {
    let r = neg_ray("d", vec![var("Y")]);
    assert!(!matchable(&r, &r), "⋈ is anti-reflexive");
}

#[test]
fn matchable_anti_transitive() {
    let r1 = pos_ray("c", vec![var("X")]);
    let r2 = neg_ray("c", vec![var("Y")]);
    let r3 = pos_ray("c", vec![var("Z")]);
    assert!(matchable(&r1, &r2), "r1 ⋈ r2 should hold");
    assert!(matchable(&r2, &r3), "r2 ⋈ r3 should hold");
    assert!(!matchable(&r1, &r3), "⋈ is anti-transitive: r1 ⋈ r3 must fail");
}

#[test]
fn matchable_symmetric() {
    let r = pos_ray("c", vec![var("X")]);
    let rp = neg_ray("c", vec![var("Y")]);
    assert_eq!(matchable(&r, &rp), matchable(&rp, &r), "⋈ is symmetric");
}

#[test]
fn two_unifiers_differ_by_a_renaming() {
    // X = Y solved either way: X ↦ Y or Y ↦ X; the images of f(X, Y, Z)
    // are f(Y, Y, Z) and f(X, X, Z), the same star up to renaming.
    let s1 = unify(vec![eq(var("X"), var("Y"))]).unwrap();
    let s2 = unify(vec![eq(var("Y"), var("X"))]).unwrap();
    let t = app("f", vec![var("X"), var("Y"), var("Z")]);
    let a = s1.apply(&t);
    let b = s2.apply(&t);
    assert!(stella_core::constellation::stars_alpha_equiv(&vec![a.clone()], &vec![b.clone()]));
    assert_eq!(s2.apply(&a), b);
    assert_eq!(s1.apply(&b), a);
}
