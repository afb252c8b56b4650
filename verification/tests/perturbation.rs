use stella_core::display::star_text;
use stella_core::oracle::{OracleReport, OracleVerdict};
use stella_core::perturbation::{
    m1_fires, m2_fires, m3_fires, m4_fires, perturbing_env, perturbing_env_confounded_legacy, M5Status,
    MemberReformEvidence, ResponseProfile,
};
use stella_core::polarised::ray_polarity;
use stella_core::term::Polarity;

#[test]
fn perturbing_env_strength_zero_is_inert() {
    let env = perturbing_env(0);
    assert_eq!(env.len(), 0, "strength=0 must return empty (inert baseline)");
}

#[test]
fn perturbing_env_strength_k_produces_k_stars() {
    for k in [1u32, 2, 5, 10] {
        let env = perturbing_env(k);
        assert_eq!(
            env.len(),
            k as usize,
            "strength={k} must produce exactly {k} noise stars"
        );
    }
}

#[test]
fn perturbing_env_noise_stars_carry_negative_rays() {
    let env = perturbing_env(5);
    for (i, star) in env.iter().enumerate() {
        assert_eq!(star.len(), 1, "noise star {i} must carry exactly 1 ray");
        let pol = ray_polarity(&star[0]);
        assert_eq!(
            pol,
            Polarity::Neg,
            "noise star {i} ray must be negative (competes for phi +sym interactions)"
        );
    }
}

#[test]
fn perturbing_env_cycles_through_the_vocabulary() {
    let env = perturbing_env(6);
    let texts: Vec<String> = env.iter().map(|s| star_text(s)).collect();
    assert_eq!(texts[0], "[-sense(_N0)]");
    assert_eq!(texts[1], "[-act(_N1)]");
    assert_eq!(texts[2], "[-add(_N2)]");
    assert_eq!(texts[3], "[-state(_N3)]");
    assert_eq!(texts[4], "[-tape(_N4)]");
    assert_eq!(texts[5], "[-sense(_N5)]");
}

#[test]
fn legacy_env_uses_fresh_symbols() {
    let zero = perturbing_env_confounded_legacy(0);
    assert_eq!(zero.len(), 1);
    assert_eq!(star_text(&zero[0]), "[+inert_zero(inert_c)]");
    let two = perturbing_env_confounded_legacy(2);
    assert_eq!(two.len(), 2);
    assert_eq!(star_text(&two[0]), "[+perturb_0(noise_0_c)]");
    assert_eq!(star_text(&two[1]), "[+perturb_1(noise_1_c)]");
}

#[test]
fn m5_status_variants_are_distinct() {
    assert_ne!(M5Status::Undetermined, M5Status::DoesNotFire);
    assert_ne!(M5Status::Fires, M5Status::DoesNotFire);
}

fn verdict(name: &'static str, passed: bool) -> OracleVerdict {
    OracleVerdict { name, passed, reason: format!("{name}: {passed}") }
}

#[test]
fn first_failure_finds_the_first_failing_verdict() {
    let report = OracleReport {
        verdicts: vec![verdict("a", true), verdict("b", false), verdict("c", false)],
        all_passed: false,
    };
    let f = report.first_failure().expect("there must be a failing verdict");
    assert_eq!(f.name, "b");
    assert!(!f.passed);
}

#[test]
fn first_failure_is_none_when_all_pass() {
    let report = OracleReport {
        verdicts: vec![verdict("a", true), verdict("b", true)],
        all_passed: true,
    };
    assert!(report.first_failure().is_none());
    let empty = OracleReport { verdicts: vec![], all_passed: true };
    assert!(empty.first_failure().is_none());
}

fn member(name: &str, closures: usize, profiles: Vec<ResponseProfile>, principled: bool, control: bool) -> MemberReformEvidence {
    MemberReformEvidence {
        name: name.into(),
        closures_found: closures,
        profiles,
        found_by_principled_search: principled,
        is_invariant_control: control,
    }
}

#[test]
fn m1_fires_when_no_principled_closures() {
    let m = member("no-closure", 0, vec![], true, false);
    assert!(m1_fires(&[m]), "M1 must fire when all principled non-control members have no closures");
}

#[test]
fn m1_does_not_fire_for_control_only_empty() {
    let control = member("control", 0, vec![], true, true);
    assert!(m1_fires(&[control]));
    let found = member("found", 1, vec![], true, false);
    assert!(!m1_fires(&[found]));
}

#[test]
fn m4_fires_on_non_principled_member() {
    let rigged = member("rigged", 0, vec![], false, false);
    assert!(m4_fires(&[rigged]), "M4 must fire when any member has found_by_principled_search=false");
}

#[test]
fn m4_does_not_fire_on_principled_members() {
    let honest = member("honest", 0, vec![], true, false);
    assert!(!m4_fires(&[honest]), "M4 must not fire when all members use principled search");
}

#[test]
fn m2_fires_vacuously_on_no_profiles() {
    let m = member("no-profiles", 0, vec![], true, false);
    assert!(m2_fires(&[m]), "M2 must fire vacuously when no non-control profiles exist");
}

#[test]
fn m2_does_not_fire_for_control_only_no_profiles() {
    let control = member("control-no-profiles", 0, vec![], true, true);
    assert!(m2_fires(&[control]));
    let tracking = ResponseProfile { perturbation_tracking: true, cap_invariant: true };
    assert!(!m2_fires(&[member("responds", 1, vec![tracking], true, false)]));
    assert!(m2_fires(&[member("control-responds", 1, vec![tracking], true, true)]));
}

#[test]
fn m3_fires_on_non_tracking_profile() {
    let flat = ResponseProfile { perturbation_tracking: false, cap_invariant: true };
    let m = member("flat", 0, vec![flat], true, false);
    assert!(m3_fires(&[m]), "M3 must fire when non-control profile has perturbation_tracking=false (artifact)");
}

#[test]
fn m3_fires_when_control_shows_response() {
    let responsive = ResponseProfile { perturbation_tracking: true, cap_invariant: true };
    let control = member("control-responsive", 0, vec![responsive], true, true);
    assert!(m3_fires(&[control]));
    let genuine = ResponseProfile { perturbation_tracking: true, cap_invariant: true };
    let quiet = ResponseProfile { perturbation_tracking: false, cap_invariant: true };
    assert!(!m3_fires(&[member("genuine", 1, vec![genuine], true, false), member("control", 0, vec![quiet], true, true)]));
    let capped = ResponseProfile { perturbation_tracking: true, cap_invariant: false };
    assert!(m3_fires(&[member("capped", 1, vec![capped], true, false)]));
}
