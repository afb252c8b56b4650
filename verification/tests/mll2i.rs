use stella_core::display::star_text;
use stella_core::mll2i::{
    addr, all_switchings, black_hole_star, box_var, bullet, bullet_box_left, bullet_box_right,
    bullet_d, bullet_left, bullet_right, has_epar_cut_cycle, linear_conclusions, path_addr,
    path_left, path_right, phi_ax, phi_comp, phi_cut, phi_switched_2i, Formula, LinkKind,
    PreFormula, ProofStructure, SwitchChoice, SwitchResult, Switching, VId,
};
use stella_core::polarised::mk_app_str;
use stella_core::term::{mk_var, Term};

fn var(x: &str) -> Term {
    mk_var(x)
}
fn app(f: &str, args: Vec<Term>) -> Term {
    mk_app_str(f, args)
}
fn v(id: u32) -> VId {
    VId(id)
}

fn identity() -> ProofStructure {
    let mut ps = ProofStructure::new();
    ps.add_link(LinkKind::Ax { left: v(1), right: v(2) });
    ps.add_link(LinkKind::Dereliction { input: v(2), output: v(3) });
    ps.add_link(LinkKind::EPar { left: v(3), right: v(1), output: v(4) });
    ps
}

#[test]
fn test_dereliction_address() {
    let ps = identity();

    let vehicle = phi_ax(&ps);
    assert_eq!(vehicle.len(), 1, "one axiom → one vehicle star");
    assert_eq!(vehicle[0].len(), 2, "vehicle star is binary");

    let phi_r = phi_comp(&ps);
    assert_eq!(phi_r.len(), 1, "no cuts ⟹ Φ^comp = Φ^ax");

    let addr1 = addr(&ps, v(1)).expect("vertex 1 has an address");
    let expected1 = app("4", vec![path_right(var("X"))]);
    assert_eq!(addr1, expected1, "addr(1) = 4(r·X) per §74.10(a)");

    let addr2 = addr(&ps, v(2)).expect("vertex 2 has an address");
    let expected2 = app("4", vec![bullet(path_left(var("X")), mk_app_str("d", vec![]))]);
    assert_eq!(addr2, expected2, "addr(2) = 4(1·X•d) per §74.10(a)");
}

#[test]
fn test_contraction_address() {
    let mut ps = ProofStructure::new();
    ps.add_link(LinkKind::Ax { left: v(1), right: v(2) });
    ps.add_link(LinkKind::Ax { left: v(1), right: v(3) });
    ps.add_link(LinkKind::Contraction { left: v(2), right: v(3), output: v(4) });

    let vehicle = phi_ax(&ps);
    assert_eq!(vehicle.len(), 2, "two axioms → two vehicle stars");
    for star in &vehicle {
        assert_eq!(star.len(), 2, "each vehicle star is binary");
    }

    let phi_r = phi_comp(&ps);
    assert_eq!(phi_r.len(), 2, "no cuts ⟹ Φ^comp = Φ^ax");

    let addr2 = addr(&ps, v(2)).expect("vertex 2 has an address");
    let addr3 = addr(&ps, v(3)).expect("vertex 3 has an address");
    let expected2 = app("4", vec![bullet(var("X"), path_left(var("X_c")))]);
    let expected3 = app("4", vec![bullet(var("X"), path_right(var("X_c")))]);
    assert_eq!(addr2, expected2, "addr(2) = 4(X•(1·X_c)) contraction left");
    assert_eq!(addr3, expected3, "addr(3) = 4(X•(r·X_c)) contraction right");

    let addr1 = addr(&ps, v(1)).expect("vertex 1 has an address");
    let expected1 = app("1", vec![var("X")]);
    assert_eq!(addr1, expected1, "addr(1) = 1(X) (free conclusion)");
}

#[test]
fn test_weakening_black_hole_structure() {
    let mut r = ProofStructure::new();
    r.add_link(LinkKind::Ax { left: v(1), right: v(2) });
    r.add_link(LinkKind::Weakening { output: v(3) });
    r.add_link(LinkKind::Cut { left: v(2), right: v(3) });

    let phi_ax_r = phi_ax(&r);
    assert_eq!(phi_ax_r.len(), 2, "one ax star + one bh star");

    let bh_star = phi_ax_r.iter().find(|s| s.len() == 3).expect("bh star (3 rays) must exist per §74.7");
    assert_eq!(bh_star.len(), 3, "bh star has 3 rays per §74.7");

    let phi_r = phi_comp(&r);
    assert_eq!(phi_r.len(), 3, "Φ^comp_R = 2 ax + 1 cut = 3 stars");
}

#[test]
fn test_phi_comp_structure() {
    let mut ps = ProofStructure::new();
    ps.add_link(LinkKind::Ax { left: v(1), right: v(2) });
    ps.add_link(LinkKind::Ax { left: v(3), right: v(4) });
    ps.add_link(LinkKind::Cut { left: v(2), right: v(3) });

    let ax = phi_ax(&ps);
    let cut = phi_cut(&ps);
    let comp = phi_comp(&ps);

    assert_eq!(ax.len(), 2, "two axioms");
    assert_eq!(cut.len(), 1, "one cut");
    assert_eq!(comp.len(), 3, "Φ^comp = 2 ax + 1 cut");
}

#[test]
fn test_bullet_terms() {
    let x = var("X");
    let d_const = mk_app_str("d", vec![]);

    let xd = bullet(x, d_const);
    match &xd {
        Term::App(sym, args) => {
            assert_eq!(sym.name.as_str(), "•");
            assert_eq!(args.len(), 2);
        }
        _ => panic!("bullet should be an App"),
    }

    let y0 = box_var(0);
    let xdy0 = bullet(xd.clone(), y0);
    match &xdy0 {
        Term::App(sym, args) => {
            assert_eq!(sym.name.as_str(), "•");
            assert_eq!(args.len(), 2);
            assert_eq!(args[0], xd, "left-associativity: (t•d)•Y0");
        }
        _ => panic!("nested bullet should be App"),
    }
}

#[test]
fn test_ax_leaf_addr() {
    let mut ps = ProofStructure::new();
    ps.add_link(LinkKind::Ax { left: v(10), right: v(11) });

    let (c10, p10) = path_addr(&ps, v(10)).expect("addr of ax left");
    assert_eq!(c10, v(10), "conclusion of ax left is itself");
    assert!(p10.is_var(), "pAddr of ax leaf is X (variable)");

    let a10 = addr(&ps, v(10)).expect("full addr of ax left");
    match &a10 {
        Term::App(sym, args) => {
            assert_eq!(sym.name.as_str(), "10");
            assert_eq!(args.len(), 1);
            assert!(args[0].is_var());
        }
        _ => panic!("addr of ax leaf should be App(vid, [X])"),
    }
}

#[test]
fn test_s75_8_cyclic_epar_incorrect() {
    let mut ps = ProofStructure::new();
    ps.add_link(LinkKind::Ax { left: v(6), right: v(8) });
    ps.add_link(LinkKind::EPar { left: v(5), right: v(6), output: v(7) });
    ps.add_link(LinkKind::Cut { left: v(7), right: v(5) });

    assert!(has_epar_cut_cycle(&ps), "§75.8 Case 1: cut(7,5) with EPar(5→7) creates a cycle");
}

#[test]
fn test_switching_count_identity() {
    let ps = identity();
    let sws = all_switchings(&ps);
    assert_eq!(sws.len(), 2, "1 EPar ⟹ 2 switchings (EParL, EParR)");
}

// ── Further cases ───────────────────────────────────────────────────────

#[test]
fn identity_has_no_cut_cycle_and_one_linear_conclusion() {
    let ps = identity();
    assert!(!has_epar_cut_cycle(&ps));
    assert_eq!(linear_conclusions(&ps), vec![v(4)]);
}

#[test]
fn cut_cycle_through_a_chain_of_cuts() {
    let mut ps = ProofStructure::new();
    ps.add_link(LinkKind::EPar { left: v(1), right: v(2), output: v(3) });
    ps.add_link(LinkKind::Cut { left: v(1), right: v(9) });
    ps.add_link(LinkKind::Cut { left: v(9), right: v(3) });
    assert!(has_epar_cut_cycle(&ps));
    let mut open = ProofStructure::new();
    open.add_link(LinkKind::EPar { left: v(1), right: v(2), output: v(3) });
    open.add_link(LinkKind::Cut { left: v(1), right: v(9) });
    assert!(!has_epar_cut_cycle(&open));
}

#[test]
fn linear_conclusions_skip_weakenings_and_cut_premises() {
    let mut ps = ProofStructure::new();
    ps.add_link(LinkKind::Ax { left: v(5), right: v(2) });
    ps.add_link(LinkKind::Weakening { output: v(3) });
    ps.add_link(LinkKind::Ax { left: v(7), right: v(1) });
    ps.add_link(LinkKind::Cut { left: v(2), right: v(7) });
    assert_eq!(linear_conclusions(&ps), vec![v(1), v(5)]);
}

#[test]
fn etensor_addresses_carry_box_variables() {
    let mut ps = ProofStructure::new();
    ps.add_link(LinkKind::Ax { left: v(1), right: v(2) });
    ps.add_link(LinkKind::Ax { left: v(3), right: v(4) });
    ps.add_link(LinkKind::ETensor { left: v(2), right: v(3), output: v(5) });
    let a2 = addr(&ps, v(2)).unwrap();
    assert_eq!(a2, app("5", vec![bullet_box_left(var("X"), box_var(0))]));
    let a3 = addr(&ps, v(3)).unwrap();
    assert_eq!(a3, app("5", vec![bullet_box_right(var("X"), box_var(0))]));
    assert_eq!(a2.text(), "5(•(·(1, X), Y0))");
}

#[test]
fn cyclic_links_have_no_address() {
    let mut ps = ProofStructure::new();
    ps.add_link(LinkKind::Par { left: v(1), right: v(2), output: v(1) });
    assert!(path_addr(&ps, v(1)).is_none());
    let empty = ProofStructure::new();
    assert!(path_addr(&empty, v(1)).is_none());
}

#[test]
fn cut_premises_are_positive_in_the_vehicle() {
    let mut ps = ProofStructure::new();
    ps.add_link(LinkKind::Ax { left: v(1), right: v(2) });
    ps.add_link(LinkKind::Ax { left: v(3), right: v(4) });
    ps.add_link(LinkKind::Cut { left: v(2), right: v(3) });
    let comp = phi_comp(&ps);
    let texts: Vec<String> = comp.iter().map(|s| star_text(s)).collect();
    assert_eq!(texts, vec!["[1(X), +2(X)]", "[+3(X), 4(X)]", "[-2(X), -3(X)]"]);
}

#[test]
fn black_hole_star_shape() {
    let s = black_hole_star(app("4", vec![var("X")]));
    assert_eq!(star_text(&s), "[+4(X), +ω(X), -ω(f_bh(X))]");
}

#[test]
fn structural_bullets() {
    assert_eq!(bullet_d(var("X")).text(), "•(X, d)");
    assert_eq!(bullet_left(var("T"), var("U")).text(), "•(T, ·(1, U))");
    assert_eq!(bullet_right(var("T"), var("U")).text(), "•(T, ·(r, U))");
}

#[test]
fn switched_identity_test_constellations() {
    let ps = identity();
    let right = phi_switched_2i(&ps, &Switching::new(vec![(2, SwitchChoice::EParR)]));
    let texts: Vec<String> = right.iter().map(|s| star_text(s)).collect();
    assert_eq!(
        texts,
        vec![
            "[-@4(4(·(r, X))), +1(X)]",
            "[-4(X), +@4(X)]",
            "[-@4(4(•(·(1, X), d))), +3(•(X, Y))]",
            "[-3(•(X, Y))]",
            "[-3(•(X', Y'))]",
            "[-1(X), +4(X)]",
        ]
    );
    let left = phi_switched_2i(&ps, &Switching::new(vec![(2, SwitchChoice::EParL)]));
    let texts: Vec<String> = left.iter().map(|s| star_text(s)).collect();
    assert_eq!(texts.len(), 5);
    assert_eq!(texts[3], "[-3(•(X, Y)), +4(•(X, Y))]");
    assert_eq!(texts[4], "[-1(X), -∞(X), +∞(X)]");
    assert_eq!(SwitchResult::EParLCancelled, SwitchResult::EParLCancelled);
}

#[test]
fn switching_lookup_takes_the_last_pair() {
    let sw = Switching::new(vec![(2, SwitchChoice::ParL), (2, SwitchChoice::ParR)]);
    assert_eq!(sw.get(2), Some(SwitchChoice::ParR));
    assert_eq!(sw.get(3), None);
}

#[test]
fn box_variables_are_allocated_in_turn() {
    let mut ps = ProofStructure::new();
    assert_eq!(ps.alloc_box_var(), 0);
    assert_eq!(ps.alloc_box_var(), 1);
    assert_eq!(ps.next_box_var, 2);
    let f = Formula::Underlined(PreFormula::EPar(
        Box::new(PreFormula::Atom(1)),
        Box::new(PreFormula::AtomDual(1)),
    ));
    assert_eq!(f.clone(), f);
    assert_eq!(v(12).name(), "12");
}

#[test]
fn nested_par_steps_nearest_the_conclusion_are_outermost() {
    let mut ps = ProofStructure::new();
    ps.add_link(LinkKind::Ax { left: v(1), right: v(2) });
    ps.add_link(LinkKind::Ax { left: v(5), right: v(6) });
    ps.add_link(LinkKind::Par { left: v(1), right: v(2), output: v(3) });
    ps.add_link(LinkKind::Par { left: v(3), right: v(5), output: v(7) });
    let (c2, p2) = path_addr(&ps, v(2)).unwrap();
    assert_eq!(c2, v(7));
    assert_eq!(p2, path_left(path_right(var("X"))));
    let (c1, p1) = path_addr(&ps, v(1)).unwrap();
    assert_eq!(c1, v(7));
    assert_eq!(p1, path_left(path_left(var("X"))));
    assert_eq!(addr(&ps, v(5)).unwrap().text(), "7(·(r, X))");
}

#[test]
fn etensor_below_par_keeps_the_par_step_outermost() {
    let mut ps = ProofStructure::new();
    ps.add_link(LinkKind::Ax { left: v(1), right: v(2) });
    ps.add_link(LinkKind::Ax { left: v(3), right: v(4) });
    ps.add_link(LinkKind::Par { left: v(1), right: v(2), output: v(5) });
    ps.add_link(LinkKind::ETensor { left: v(5), right: v(3), output: v(6) });
    let a1 = addr(&ps, v(1)).unwrap();
    assert_eq!(a1, app("6", vec![bullet_box_left(path_left(var("X")), box_var(0))]));
}

#[test]
fn switchings_choose_once_per_switchable_link_and_differ() {
    let mut ps = ProofStructure::new();
    ps.add_link(LinkKind::Ax { left: v(1), right: v(2) });
    ps.add_link(LinkKind::Ax { left: v(5), right: v(6) });
    ps.add_link(LinkKind::Par { left: v(1), right: v(2), output: v(3) });
    ps.add_link(LinkKind::EPar { left: v(3), right: v(5), output: v(7) });
    let sws = all_switchings(&ps);
    assert_eq!(sws.len(), 4);
    for s in &sws {
        assert_eq!(s.choices.len(), 2);
        assert!(s.get(0).is_none() && s.get(1).is_none());
        assert!(matches!(s.get(2), Some(SwitchChoice::ParL) | Some(SwitchChoice::ParR)));
        assert!(matches!(s.get(3), Some(SwitchChoice::EParL) | Some(SwitchChoice::EParR)));
    }
    for a in 0..sws.len() {
        for b in (a + 1)..sws.len() {
            assert!(sws[a].get(2) != sws[b].get(2) || sws[a].get(3) != sws[b].get(3));
        }
    }
    // A later pair for an index overrides an earlier one.
    let sw = Switching::new(vec![(2, SwitchChoice::ParL), (2, SwitchChoice::ParR)]);
    assert_eq!(sw.get(2), Some(SwitchChoice::ParR));
    assert_eq!(sw.choices.len(), 1);
}
