use stella_core::alpha::alpha_unify;
use stella_core::constellation::{stars_alpha_equiv, Constellation, Star};
use stella_core::mll::{
    addr, all_switchings, const_union, constellations_equiv, cut_elim_trace, dr_correct_classical,
    full_head_polarise, in_mll_one, is_well_formed_vehicle, mll_one, neg_vertex_ray, neu_vertex_ray,
    orth_fin, path_addr, path_left, path_right, phi_ax, phi_comp, phi_cut, phi_switched, phi_switched_coloured, pos_vertex_ray,
    pre_tensor, roots, trace_states, Behaviour, CutRule, LinkKind, ProofStructure, Switching, VId,
};
use stella_core::mll2i::{LinkKind as L2, VId as V2};
use stella_core::polarised::{mk_app_str, neg_ray, pos_ray};
use stella_core::term::{mk_var, Term};

fn x() -> Term {
    mk_var("X")
}

fn single_star(r1: Term, r2: Term) -> Constellation {
    vec![vec![r1, r2]]
}

#[test]
fn test_single_axiom_phi_ax() {
    let mut ps = ProofStructure::new();
    ps.add_link(LinkKind::Ax { left: VId(1), right: VId(2) });
    let phi = phi_ax(&ps);
    assert_eq!(phi.len(), 1);
    let star = &phi[0];
    assert_eq!(star.len(), 2);
    let expected_star: Star = vec![mk_app_str("1", vec![x()]), mk_app_str("2", vec![x()])];
    assert!(stars_alpha_equiv(star, &expected_star));
    let cut = phi_cut(&ps);
    assert!(cut.is_empty());
}

#[test]
fn test_par_tensor_cut_structure() {
    let mut r = ProofStructure::new();
    r.add_link(LinkKind::Ax { left: VId(1), right: VId(2) });
    r.add_link(LinkKind::Ax { left: VId(3), right: VId(4) });
    r.add_link(LinkKind::Ax { left: VId(5), right: VId(6) });
    r.add_link(LinkKind::Par { left: VId(3), right: VId(5), output: VId(7) });
    r.add_link(LinkKind::Tensor { left: VId(4), right: VId(6), output: VId(8) });
    r.add_link(LinkKind::Cut { left: VId(7), right: VId(8) });

    let phi = phi_comp(&r);
    assert_eq!(phi.len(), 4);
    let cut_stars: Vec<&Star> = phi
        .iter()
        .filter(|s| s.iter().all(|ray| ray.head().map_or(false, |h| h.starts_with('-'))))
        .collect();
    assert_eq!(cut_stars.len(), 1, "should have exactly one all-negative cut star");

    let addr_3 = addr(&r, VId(3));
    let expected_addr_3 = mk_app_str("7", vec![path_left(x())]);
    assert!(addr_3.is_some());
    assert!(alpha_unify(addr_3.unwrap(), expected_addr_3).is_some());

    let addr_5 = addr(&r, VId(5));
    let expected_addr_5 = mk_app_str("7", vec![path_right(x())]);
    assert!(addr_5.is_some());
    assert!(alpha_unify(addr_5.unwrap(), expected_addr_5).is_some());
}

#[test]
fn cut_elim_trace_tensor_par_trajectory_is_structurally_correct() {
    let r = ProofStructure {
        links: vec![
            LinkKind::Ax { left: VId(1), right: VId(2) },
            LinkKind::Ax { left: VId(3), right: VId(4) },
            LinkKind::Ax { left: VId(5), right: VId(6) },
            LinkKind::Par { left: VId(3), right: VId(5), output: VId(7) },
            LinkKind::Tensor { left: VId(4), right: VId(6), output: VId(8) },
            LinkKind::Cut { left: VId(7), right: VId(8) },
        ],
    };
    let trace = cut_elim_trace(&r, 256);
    assert_eq!(trace[1].rule, CutRule::MultiplicativeCut);
    assert!(trace.iter().skip(2).all(|s| s.rule == CutRule::AxCut));
    let last = trace.last().unwrap();
    assert_eq!(last.cuts_remaining, 0, "trajectory reaches a cut-free endpoint");
    assert_eq!(last.ps.links, vec![LinkKind::Ax { left: VId(1), right: VId(2) }]);
}

#[test]
fn test_switching_count() {
    let mut ps0 = ProofStructure::new();
    ps0.add_link(LinkKind::Ax { left: VId(1), right: VId(2) });
    assert_eq!(all_switchings(&ps0).len(), 1);

    let mut ps1 = ProofStructure::new();
    ps1.add_link(LinkKind::Ax { left: VId(1), right: VId(2) });
    ps1.add_link(LinkKind::Par { left: VId(1), right: VId(2), output: VId(3) });
    assert_eq!(all_switchings(&ps1).len(), 2);

    let mut ps2 = ProofStructure::new();
    ps2.add_link(LinkKind::Ax { left: VId(10), right: VId(11) });
    ps2.add_link(LinkKind::Ax { left: VId(12), right: VId(13) });
    ps2.add_link(LinkKind::Par { left: VId(10), right: VId(12), output: VId(14) });
    ps2.add_link(LinkKind::Par { left: VId(11), right: VId(13), output: VId(15) });
    assert_eq!(all_switchings(&ps2).len(), 4);
}

#[test]
fn test_is_well_formed_vehicle() {
    let mut r = ProofStructure::new();
    r.add_link(LinkKind::Ax { left: VId(1), right: VId(2) });
    r.add_link(LinkKind::Ax { left: VId(3), right: VId(4) });
    r.add_link(LinkKind::Cut { left: VId(1), right: VId(3) });
    let vehicle = phi_ax(&r);
    assert!(is_well_formed_vehicle(&vehicle), "got {:?}", vehicle);

    let bad_unary: Constellation = vec![vec![pos_ray("1", vec![x()])]];
    assert!(!is_well_formed_vehicle(&bad_unary));

    let bad_ternary: Constellation = vec![vec![
        pos_ray("1", vec![x()]),
        pos_ray("2", vec![x()]),
        pos_ray("3", vec![x()]),
    ]];
    assert!(!is_well_formed_vehicle(&bad_ternary));

    let bad_neg: Constellation = vec![vec![neg_ray("1", vec![x()]), pos_ray("2", vec![x()])]];
    assert!(!is_well_formed_vehicle(&bad_neg));

    let bad_no_pos: Constellation = vec![vec![mk_app_str("1", vec![x()]), mk_app_str("2", vec![x()])]];
    assert!(!is_well_formed_vehicle(&bad_no_pos));

    let bad_unifiable: Constellation = vec![
        vec![pos_ray("1", vec![x()]), pos_ray("2", vec![x()])],
        vec![pos_ray("1", vec![mk_var("Y")]), pos_ray("3", vec![mk_var("Y")])],
    ];
    assert!(!is_well_formed_vehicle(&bad_unifiable));
}

#[test]
fn test_mll_one_membership_71_12() {
    let empty: Constellation = vec![];
    assert!(in_mll_one(&empty));
    let non_empty: Constellation = single_star(pos_ray("a", vec![x()]), neg_ray("a", vec![x()]));
    assert!(!in_mll_one(&non_empty));
    let one = mll_one();
    assert_eq!(one.len(), 1);
    assert!(one.iter().iter().next().map_or(false, |phi| phi.is_empty()));
}

#[test]
fn test_orth_fin_always_true() {
    let phi1: Constellation = single_star(pos_ray("a", vec![x()]), pos_ray("b", vec![x()]));
    let phi2: Constellation = single_star(neg_ray("a", vec![x()]), neg_ray("b", vec![x()]));
    let phi3: Constellation = single_star(pos_ray("c", vec![x()]), pos_ray("d", vec![x()]));
    assert!(orth_fin(&phi1, &phi2));
    assert!(orth_fin(&phi1, &phi3));
}

fn chain(n: u32) -> ProofStructure {
    let mut links = Vec::new();
    for k in 0..=n {
        links.push(LinkKind::Ax { left: VId(2 * k), right: VId(2 * k + 1) });
    }
    for k in 0..n {
        links.push(LinkKind::Cut { left: VId(2 * k + 1), right: VId(2 * (k + 1)) });
    }
    ProofStructure { links }
}

#[test]
fn axiom_chain_reduces_to_one_axiom() {
    for n in 1..=4u32 {
        let r = chain(n);
        let trace = cut_elim_trace(&r, 256);
        assert_eq!(trace[0].index, 0);
        assert_eq!(trace[0].rule, CutRule::Initial);
        assert_eq!(trace[0].ps.links, r.links);
        assert_eq!(trace.len(), (n + 1) as usize);
        let last = trace.last().unwrap();
        assert_eq!(last.cuts_remaining, 0);
        for w in trace.windows(2) {
            assert!(w[1].cuts_remaining < w[0].cuts_remaining);
            assert_eq!(w[1].rule, CutRule::AxCut);
        }
        assert_eq!(last.ps.links, vec![LinkKind::Ax { left: VId(0), right: VId(2 * n + 1) }]);
        assert_eq!(trace_states(&trace).len(), trace.len());
    }
}

#[test]
fn trace_stops_at_the_bound() {
    let r = chain(3);
    let trace = cut_elim_trace(&r, 1);
    assert_eq!(trace.len(), 2);
    assert_eq!(trace[1].cuts_remaining, 2);
}

#[test]
fn trace_state_is_canonical_up_to_variable_names() {
    let mut a = ProofStructure::new();
    a.add_link(LinkKind::Ax { left: VId(1), right: VId(2) });
    let t = cut_elim_trace(&a, 4);
    assert_eq!(t.len(), 1);
    assert_eq!(t[0].state.text(), "state(star(1(L0), 2(L0)))");
}

#[test]
fn conclusions_are_sorted_and_exclude_premises_and_cuts() {
    let mut r = ProofStructure::new();
    r.add_link(LinkKind::Ax { left: VId(9), right: VId(2) });
    r.add_link(LinkKind::Ax { left: VId(3), right: VId(4) });
    r.add_link(LinkKind::Tensor { left: VId(2), right: VId(3), output: VId(5) });
    r.add_link(LinkKind::Cut { left: VId(4), right: VId(6) });
    assert_eq!(r.conclusions(), vec![VId(5), VId(9)]);
    assert_eq!(r.axioms().len(), 2);
    assert_eq!(r.cuts(), vec![LinkKind::Cut { left: VId(4), right: VId(6) }]);
}

#[test]
fn path_addresses_through_connectives() {
    let mut r = ProofStructure::new();
    r.add_link(LinkKind::Ax { left: VId(1), right: VId(2) });
    r.add_link(LinkKind::Ax { left: VId(3), right: VId(4) });
    r.add_link(LinkKind::Tensor { left: VId(2), right: VId(3), output: VId(5) });
    r.add_link(LinkKind::Par { left: VId(5), right: VId(4), output: VId(6) });
    let (c, p) = path_addr(&r, VId(3)).unwrap();
    assert_eq!(c, VId(6));
    assert_eq!(p.text(), "·(1, ·(r, X))");
    let (c1, p1) = path_addr(&r, VId(1)).unwrap();
    assert_eq!(c1, VId(1));
    assert_eq!(p1.text(), "X");
    assert!(path_addr(&r, VId(42)).is_none());
}

#[test]
fn cut_vertices_make_axiom_rays_positive() {
    let mut r = ProofStructure::new();
    r.add_link(LinkKind::Ax { left: VId(1), right: VId(2) });
    r.add_link(LinkKind::Ax { left: VId(3), right: VId(4) });
    r.add_link(LinkKind::Cut { left: VId(2), right: VId(3) });
    let ax = phi_ax(&r);
    assert_eq!(ax[0][0].text(), "1(X)");
    assert_eq!(ax[0][1].text(), "+2(X)");
    assert_eq!(ax[1][0].text(), "+3(X)");
    assert_eq!(ax[1][1].text(), "4(X)");
    let cut = phi_cut(&r);
    assert_eq!(cut[0][0].text(), "-2(X)");
    assert_eq!(cut[0][1].text(), "-3(X)");
}

#[test]
fn classical_danos_regnier() {
    let mut one = ProofStructure::new();
    one.add_link(LinkKind::Ax { left: VId(1), right: VId(2) });
    assert!(dr_correct_classical(&one));

    let mut par = ProofStructure::new();
    par.add_link(LinkKind::Ax { left: VId(1), right: VId(2) });
    par.add_link(LinkKind::Par { left: VId(1), right: VId(2), output: VId(3) });
    assert!(dr_correct_classical(&par));

    let mut ten = ProofStructure::new();
    ten.add_link(LinkKind::Ax { left: VId(1), right: VId(2) });
    ten.add_link(LinkKind::Tensor { left: VId(1), right: VId(2), output: VId(3) });
    assert!(!dr_correct_classical(&ten));

    let mut two = ProofStructure::new();
    two.add_link(LinkKind::Ax { left: VId(1), right: VId(2) });
    two.add_link(LinkKind::Ax { left: VId(3), right: VId(4) });
    assert!(!dr_correct_classical(&two));
    two.add_link(LinkKind::Tensor { left: VId(2), right: VId(3), output: VId(5) });
    assert!(dr_correct_classical(&two));
}

#[test]
fn equivalence_union_roots_and_polarisation() {
    let a: Constellation = vec![vec![pos_ray("a", vec![x()])], vec![mk_app_str("b", vec![mk_var("Y")])]];
    let b: Constellation = vec![vec![mk_app_str("b", vec![x()])], vec![pos_ray("a", vec![mk_var("Z")])]];
    assert!(constellations_equiv(&a, &b));
    let c: Constellation = vec![vec![pos_ray("a", vec![x()])]];
    assert!(!constellations_equiv(&a, &c));

    let u = const_union(&a, &c);
    assert_eq!(u.len(), 3);
    let rs = roots(&u);
    assert_eq!(rs.len(), 1);
    assert_eq!(rs[0].text(), "b(Y)");

    let p = full_head_polarise(&vec![vec![neg_ray("f", vec![x()]), x()]]);
    assert_eq!(p[0][0].text(), "+f(X)");
    assert_eq!(p[0][1].text(), "X");

    assert_eq!(pos_vertex_ray(VId(7), x()).text(), "+7(X)");
    assert_eq!(neg_vertex_ray(VId(7), x()).text(), "-7(X)");
    assert_eq!(neu_vertex_ray(VId(7), x()).text(), "7(X)");
}

#[test]
fn pre_tensor_unions_pairwise() {
    let phi1: Constellation = single_star(pos_ray("a", vec![x()]), pos_ray("b", vec![x()]));
    let phi2: Constellation = single_star(pos_ray("c", vec![x()]), pos_ray("d", vec![x()]));
    let a = Behaviour::new(vec![phi1]);
    let b = Behaviour::new(vec![phi2]);
    let pre = pre_tensor(&a, &b);
    assert_eq!(pre.len(), 1);
    let expected: Constellation = vec![
        vec![pos_ray("a", vec![x()]), pos_ray("b", vec![x()])],
        vec![pos_ray("c", vec![x()]), pos_ray("d", vec![x()])],
    ];
    assert!(constellations_equiv(&pre.0[0], &expected));
    assert!(Behaviour::empty().is_empty());
}

#[test]
fn phi_switched_par_left_and_right() {
    let mut ps = ProofStructure::new();
    ps.add_link(LinkKind::Ax { left: VId(1), right: VId(2) });
    ps.add_link(LinkKind::Par { left: VId(1), right: VId(2), output: VId(3) });
    let text = |c: &Constellation| -> Vec<String> { c.iter().map(|s| stella_core::display::star_text(s)).collect() };
    let left = phi_switched(&ps, &Switching { par_choices: vec![true] });
    assert_eq!(
        text(&left),
        vec!["[-3(·(1, X)), +1(X)]", "[-3(·(r, X)), +2(X)]", "[-1(X), +3(X)]", "[-2(X)]", "[-3(X), 3(X)]"]
    );
    let right = phi_switched(&ps, &Switching { par_choices: vec![false] });
    assert_eq!(text(&right)[2], "[-2(X), +3(X)]");
    assert_eq!(text(&right)[3], "[-1(X)]");
    let default = phi_switched(&ps, &Switching { par_choices: vec![] });
    assert_eq!(text(&default), text(&left));
}

#[test]
fn phi_switched_tensor_with_cut() {
    let mut ps = ProofStructure::new();
    ps.add_link(LinkKind::Ax { left: VId(1), right: VId(2) });
    ps.add_link(LinkKind::Ax { left: VId(3), right: VId(4) });
    ps.add_link(LinkKind::Tensor { left: VId(2), right: VId(3), output: VId(5) });
    ps.add_link(LinkKind::Cut { left: VId(5), right: VId(6) });
    let c = phi_switched(&ps, &Switching { par_choices: vec![] });
    let t: Vec<String> = c.iter().map(|s| stella_core::display::star_text(s)).collect();
    assert_eq!(t[0], "[-5(X), -6(X)]");
    assert!(t.contains(&"[-2(X), -3(X), +5(X)]".to_string()));
    assert_eq!(t.last().unwrap(), "[-4(X), 4(X)]");
}

#[test]
fn test_phi_switched_star_count_single_axiom() {
    let mut ps = ProofStructure::new();
    ps.add_link(LinkKind::Ax { left: VId(1), right: VId(2) });
    let sw = Switching { par_choices: vec![] };
    let phi = phi_switched(&ps, &sw);
    assert_eq!(phi.len(), 2, "Single axiom phi_switched: expected 2 conclusion stars, got {}", phi.len());
}

#[test]
fn test_pre_tensor_shape() {
    let phi1: Constellation = single_star(pos_ray("a", vec![x()]), pos_ray("b", vec![x()]));
    let phi2: Constellation = single_star(pos_ray("c", vec![x()]), pos_ray("d", vec![x()]));
    let a = Behaviour::new(vec![phi1.clone()]);
    let b = Behaviour::new(vec![phi2.clone()]);
    let pre = pre_tensor(&a, &b);
    assert_eq!(pre.len(), 1, "1×1 pre_tensor has 1 element");
    let expected: Constellation = vec![
        vec![pos_ray("a", vec![x()]), pos_ray("b", vec![x()])],
        vec![pos_ray("c", vec![x()]), pos_ray("d", vec![x()])],
    ];
    assert!(constellations_equiv(&pre.0[0], &expected), "pre_tensor element should be phi1 ⊎ phi2");
}

#[test]
fn test_well_formed_vehicle_cut_free() {
    let mut ps = ProofStructure::new();
    ps.add_link(LinkKind::Ax { left: VId(1), right: VId(2) });
    let vehicle = phi_ax(&ps);
    assert_eq!(vehicle.len(), 1, "single axiom has 1 star");
    assert!(!is_well_formed_vehicle(&vehicle), "all-neutral cut-free vehicle fails strict §69.27 cond 5");
}

#[test]
fn phi_switched_coloured_wraps_routing_stars_only() {
    let mut ps = ProofStructure::new();
    ps.add_link(LinkKind::Ax { left: VId(1), right: VId(2) });
    ps.add_link(LinkKind::Par { left: VId(1), right: VId(2), output: VId(3) });
    let text = |c: &Constellation| -> Vec<String> { c.iter().map(|s| stella_core::display::star_text(s)).collect() };
    let col = phi_switched_coloured(&ps, &Switching { par_choices: vec![true] });
    assert_eq!(
        text(&col),
        vec!["[-@3(3(·(1, X))), +1(X)]", "[-@3(3(·(r, X))), +2(X)]", "[-1(X), +3(X)]", "[-2(X)]", "[-3(X), 3(X)]"]
    );
    let plain = phi_switched(&ps, &Switching { par_choices: vec![true] });
    assert_eq!(text(&col)[2..], text(&plain)[2..]);
}

#[test]
fn cut_elim_trace_cut_counts_move_by_one() {
    // A tensor cut against a par: one multiplicative step (one cut becomes
    // two), then two axiom steps (one cut fewer each).
    let mut ps = ProofStructure::new();
    ps.add_link(LinkKind::Ax { left: VId(1), right: VId(2) });
    ps.add_link(LinkKind::Ax { left: VId(3), right: VId(4) });
    ps.add_link(LinkKind::Tensor { left: VId(1), right: VId(3), output: VId(5) });
    ps.add_link(LinkKind::Ax { left: VId(6), right: VId(7) });
    ps.add_link(LinkKind::Ax { left: VId(8), right: VId(9) });
    ps.add_link(LinkKind::Par { left: VId(6), right: VId(8), output: VId(10) });
    ps.add_link(LinkKind::Cut { left: VId(5), right: VId(10) });
    let t = cut_elim_trace(&ps, 10);
    assert_eq!(t[0].rule, CutRule::Initial);
    assert_eq!(t[0].cuts_remaining, 1);
    for k in 1..t.len() {
        match t[k].rule {
            CutRule::AxCut => assert_eq!(t[k].cuts_remaining + 1, t[k - 1].cuts_remaining),
            CutRule::MultiplicativeCut => assert_eq!(t[k].cuts_remaining, t[k - 1].cuts_remaining + 1),
            CutRule::Initial => panic!("only the first state is initial"),
        }
    }
    assert_eq!(t[1].rule, CutRule::MultiplicativeCut);
    assert_eq!(t.last().unwrap().cuts_remaining, 0);
}

#[test]
fn nested_par_addresses_agree_with_the_exponential_module() {
    let mut ps = ProofStructure::new();
    ps.add_link(LinkKind::Ax { left: VId(1), right: VId(2) });
    ps.add_link(LinkKind::Ax { left: VId(5), right: VId(6) });
    ps.add_link(LinkKind::Par { left: VId(1), right: VId(2), output: VId(3) });
    ps.add_link(LinkKind::Par { left: VId(3), right: VId(5), output: VId(7) });
    let (c, p) = path_addr(&ps, VId(2)).unwrap();
    assert_eq!(c, VId(7));
    assert_eq!(p, path_left(path_right(x())));
    let mut ps2 = stella_core::mll2i::ProofStructure::new();
    ps2.add_link(L2::Ax { left: V2(1), right: V2(2) });
    ps2.add_link(L2::Ax { left: V2(5), right: V2(6) });
    ps2.add_link(L2::Par { left: V2(1), right: V2(2), output: V2(3) });
    ps2.add_link(L2::Par { left: V2(3), right: V2(5), output: V2(7) });
    let (c2, p2) = stella_core::mll2i::path_addr(&ps2, V2(2)).unwrap();
    assert_eq!(c2, V2(7));
    assert_eq!(p2, p);
}

#[test]
fn test_axiom_cut_axiom_cut_elim() {
    let mut r = ProofStructure::new();
    r.add_link(LinkKind::Ax { left: VId(1), right: VId(2) });
    r.add_link(LinkKind::Ax { left: VId(3), right: VId(4) });
    r.add_link(LinkKind::Cut { left: VId(2), right: VId(3) });
    let ax = phi_ax(&r);
    assert_eq!(ax.len(), 2, "should have 2 axiom stars");
    let cut = phi_cut(&r);
    assert_eq!(cut.len(), 1, "should have 1 cut star");
    let expected_cut: Star = vec![neg_ray("2", vec![x()]), neg_ray("3", vec![x()])];
    assert!(stars_alpha_equiv(&cut[0], &expected_cut), "cut star mismatch");
}

#[test]
fn cut_elim_trace_endpoint_is_theorem_certified() {
    let chain = |n: u32| -> ProofStructure {
        let mut links = Vec::new();
        for k in 0..=n {
            links.push(LinkKind::Ax { left: VId(2 * k), right: VId(2 * k + 1) });
        }
        for k in 0..n {
            links.push(LinkKind::Cut { left: VId(2 * k + 1), right: VId(2 * (k + 1)) });
        }
        ProofStructure { links }
    };
    for n in 1..=4u32 {
        let r = chain(n);
        let trace = cut_elim_trace(&r, 256);
        assert_eq!(trace[0].index, 0);
        assert_eq!(trace[0].rule, CutRule::Initial);
        assert_eq!(trace[0].ps.links, r.links);
        assert_eq!(trace.len(), (n + 1) as usize, "n={n}: expected {} trajectory states", n + 1);
        let last = trace.last().unwrap();
        assert_eq!(last.cuts_remaining, 0, "n={n}: endpoint must be cut-free");
        for w in trace.windows(2) {
            assert!(w[1].cuts_remaining < w[0].cuts_remaining, "n={n}: every step strictly removes a cut");
            assert_eq!(w[1].rule, CutRule::AxCut, "pure ax/cut chain");
        }
    }
}

#[test]
fn equivalence_counts_multiplicity() {
    let s = || vec![pos_ray("a", vec![x()])];
    let t = || vec![mk_app_str("b", vec![mk_var("Y")])];
    let s2 = || vec![pos_ray("a", vec![mk_var("W")])];
    assert!(!constellations_equiv(&vec![s(), s()], &vec![s(), t()]));
    assert!(!constellations_equiv(&vec![s(), t()], &vec![s(), s()]));
    assert!(constellations_equiv(&vec![s(), s(), t()], &vec![t(), s2(), s2()]));
    assert!(!constellations_equiv(&vec![s()], &vec![s(), s()]));
    assert!(constellations_equiv(&vec![], &vec![]));
}
