use stella_core::constellation::{Constellation, Star};
use stella_core::omega_weight::{behaviour_weight, constellation_weight, nat_behaviour, star_weight, visible};
use stella_core::polarised::mk_app_str;
use stella_core::term::Term;

fn fu_ray() -> Term {
    mk_app_str("+fu", vec![])
}

fn wo_ray() -> Term {
    mk_app_str("-wo", vec![])
}

#[test]
fn weight_nat_minus2() {
    let phi = nat_behaviour(-2);
    assert_eq!(behaviour_weight(&[phi]), -2, "ω([[−2]]) should be −2");
}

#[test]
fn weight_nat_minus1() {
    let phi = nat_behaviour(-1);
    assert_eq!(behaviour_weight(&[phi]), -1);
}

#[test]
fn weight_nat_zero() {
    let phi = nat_behaviour(0);
    assert_eq!(behaviour_weight(&[phi]), 0);
}

#[test]
fn weight_nat_one() {
    let phi = nat_behaviour(1);
    assert_eq!(behaviour_weight(&[phi]), 1);
}

#[test]
fn weight_nat_two() {
    let phi = nat_behaviour(2);
    assert_eq!(behaviour_weight(&[phi]), 2);
}

#[test]
fn weight_nat_three() {
    let phi = nat_behaviour(3);
    assert_eq!(behaviour_weight(&[phi]), 3);
}

#[test]
fn weight_objective_star() {
    let s1: Star = vec![fu_ray()];
    assert_eq!(star_weight(&s1), 1);
    let s2: Star = vec![fu_ray(), fu_ray()];
    assert_eq!(star_weight(&s2), 0);
    let s3: Star = vec![fu_ray(), fu_ray(), fu_ray()];
    assert_eq!(star_weight(&s3), -1);
}

#[test]
fn weight_subjective_star() {
    let s: Star = vec![wo_ray()];
    assert_eq!(star_weight(&s), 0);
}

#[test]
fn weight_animist_star() {
    let s: Star = vec![fu_ray(), wo_ray()];
    assert_eq!(star_weight(&s), -1);
}

#[test]
fn weight_fu_behaviour() {
    let fu_member: Constellation = vec![vec![fu_ray()]];
    assert_eq!(behaviour_weight(&[fu_member]), 1);
}

#[test]
fn weight_wo_behaviour() {
    let wo_member: Constellation = vec![vec![wo_ray()]];
    assert_eq!(behaviour_weight(&[wo_member]), 0);
}

#[test]
fn zero_like_constellation_invisible() {
    let phi = nat_behaviour(-1);
    assert!(!visible(&phi));
}

#[test]
fn top_like_constellation_visible() {
    let phi = nat_behaviour(1);
    assert!(visible(&phi));
}

#[test]
fn zero_weight_constellation_visible() {
    let phi = nat_behaviour(0);
    assert!(visible(&phi));
}

#[test]
fn behaviour_weight_is_max() {
    let phi_neg: Constellation = nat_behaviour(-1);
    let phi_pos: Constellation = nat_behaviour(2);
    assert_eq!(behaviour_weight(&[phi_neg, phi_pos]), 2);
}

#[test]
fn constellation_weight_is_sum() {
    let phi: Constellation = vec![vec![fu_ray()], vec![fu_ray()]];
    assert_eq!(constellation_weight(&phi), 2);
}

#[test]
fn encoding_weight_matches_for_a_range() {
    for p in -6i64..=6 {
        let phi = nat_behaviour(p);
        assert_eq!(constellation_weight(&phi), p);
    }
}

#[test]
fn neutral_ray_counts_as_objective() {
    let s: Star = vec![mk_app_str("f", vec![]), mk_app_str("+g", vec![])];
    assert_eq!(star_weight(&s), 0);
    let empty: Star = vec![];
    assert_eq!(star_weight(&empty), 2);
}
