use stella_core::nfta::{Nfta, NftaRule, Tree};

fn bool_formula_nfta() -> Nfta {
    Nfta {
        states: vec!["qt".into(), "qf".into()],
        initial: vec!["qt".into()],
        rules: vec![
            NftaRule { state: "qt".into(), symbol: "or".into(), successors: vec!["qt".into(), "qf".into()] },
            NftaRule { state: "qt".into(), symbol: "or".into(), successors: vec!["qf".into(), "qt".into()] },
            NftaRule { state: "qt".into(), symbol: "not".into(), successors: vec!["qf".into()] },
            NftaRule { state: "qf".into(), symbol: "not".into(), successors: vec!["qt".into()] },
            NftaRule { state: "qf".into(), symbol: "or".into(), successors: vec!["qf".into(), "qf".into()] },
        ],
        leaf_states: vec![],
        terminal_pairs: vec![("qt".into(), "1".into()), ("qf".into(), "0".into())],
    }
}

fn tree_or_not1_1() -> Tree {
    Tree::Node(
        "or".into(),
        vec![
            Tree::Node("not".into(), vec![Tree::Node("1".into(), vec![])]),
            Tree::Node("1".into(), vec![]),
        ],
    )
}

fn tree_or_not1_0() -> Tree {
    Tree::Node(
        "or".into(),
        vec![
            Tree::Node("not".into(), vec![Tree::Node("1".into(), vec![])]),
            Tree::Node("0".into(), vec![]),
        ],
    )
}

#[test]
fn tree_encoding_leaf() {
    let leaf = Tree::Leaf("x".into());
    let enc = leaf.encode();
    assert!(enc.is_var(), "leaf should encode to a variable");
}

#[test]
fn tree_encoding_node() {
    let t = Tree::Node("f".into(), vec![Tree::Leaf("x".into()), Tree::Leaf("y".into())]);
    let enc = t.encode();
    assert_eq!(enc.head(), Some("f".to_string()));
    assert_eq!(enc.args().len(), 2);
}

#[test]
fn tree_encoding_constant() {
    let t = Tree::Node("1".into(), vec![]);
    let enc = t.encode();
    assert_eq!(enc.head(), Some("1".to_string()));
    assert_eq!(enc.args().len(), 0);
    assert!(!enc.is_var());
}

#[test]
fn nfta_machine_constellation_structure() {
    let nfta = bool_formula_nfta();
    let t_star = nfta.machine_constellation();
    let n_initial = nfta.initial.len();
    let n_rule: usize = nfta.rules.iter().map(|r| r.successors.len()).sum();
    let n_leaf = nfta.leaf_states.len();
    let n_term = nfta.terminal_pairs.len();
    let expected = n_initial + n_rule + n_leaf + n_term;
    assert_eq!(t_star.len(), expected);
}

#[test]
fn nfta_accepts_true_formula() {
    let nfta = bool_formula_nfta();
    assert!(nfta.accepts(&tree_or_not1_1()));
}

/// `or(not(1), 0)` evaluates to false: the automaton rejects it.
#[test]
fn nfta_rejects_false_formula() {
    let nfta = bool_formula_nfta();
    let tree = tree_or_not1_0();
    assert!(!nfta.accepts(&tree), "NFTA should reject or(not(1), 0) — evaluates to false");
}

#[test]
fn nfta_accepts_constant_true() {
    let nfta = bool_formula_nfta();
    assert!(nfta.accepts(&Tree::Node("1".into(), vec![])));
}

#[test]
fn nfta_rejects_constant_false() {
    let nfta = bool_formula_nfta();
    assert!(!nfta.accepts(&Tree::Node("0".into(), vec![])));
}

#[test]
fn nfta_accepts_not_false() {
    let nfta = bool_formula_nfta();
    let tree = Tree::Node("not".into(), vec![Tree::Node("0".into(), vec![])]);
    assert!(nfta.accepts(&tree));
}

#[test]
fn rule_stars_name_child_variables() {
    let nfta = bool_formula_nfta();
    let t_star = nfta.machine_constellation();
    assert_eq!(t_star[0][0].text(), "-i(T)");
    assert_eq!(t_star[0][1].text(), "+ta(qt, T)");
    assert_eq!(t_star[1][0].text(), "-ta(qt, or(X_r0_c0, X_r0_c1))");
    assert_eq!(t_star[1][1].text(), "+ta(qt, X_r0_c0)");
    assert_eq!(t_star[2][1].text(), "+ta(qf, X_r0_c1)");
    assert_eq!(t_star[9][0].text(), "-ta(qt, 1)");
}

#[test]
fn leaf_states_accept_variables() {
    let a = Nfta {
        states: vec!["q".into()],
        initial: vec!["q".into()],
        rules: vec![NftaRule { state: "q".into(), symbol: "f".into(), successors: vec!["q".into()] }],
        leaf_states: vec!["q".into()],
        terminal_pairs: vec![],
    };
    let t = Tree::Node("f".into(), vec![Tree::Leaf("x".into())]);
    assert!(a.accepts(&t));
}

#[test]
fn every_child_must_be_accepted() {
    let nfta = bool_formula_nfta();
    // Exactly the formulas that evaluate to true.
    let one = || Tree::Node("1".into(), vec![]);
    let zero = || Tree::Node("0".into(), vec![]);
    let or = |a: Tree, b: Tree| Tree::Node("or".into(), vec![a, b]);
    let not = |a: Tree| Tree::Node("not".into(), vec![a]);
    assert!(nfta.accepts(&or(zero(), one())));
    assert!(!nfta.accepts(&or(zero(), zero())));
    assert!(nfta.accepts(&not(or(zero(), zero()))));
    assert!(!nfta.accepts(&not(not(zero()))));
    assert!(nfta.accepts(&not(not(one()))));
    // A node of the wrong arity has no run.
    assert!(!nfta.accepts(&Tree::Node("not".into(), vec![one(), one()])));
    // A variable leaf needs a leaf state; the formula automaton has none.
    assert!(!nfta.accepts(&not(Tree::Leaf("x".into()))));
    assert!(nfta.run_from(&"qf".to_string(), &zero()));
    assert!(!nfta.run_from(&"qt".to_string(), &zero()));
}

#[test]
fn constant_rules_without_children_accept() {
    let a = Nfta {
        states: vec!["q".into()],
        initial: vec!["q".into()],
        rules: vec![
            NftaRule { state: "q".into(), symbol: "c".into(), successors: vec![] },
            NftaRule { state: "q".into(), symbol: "g".into(), successors: vec!["q".into(), "q".into()] },
        ],
        leaf_states: vec![],
        terminal_pairs: vec![],
    };
    let c = || Tree::Node("c".into(), vec![]);
    assert!(a.accepts(&Tree::Node("g".into(), vec![c(), c()])));
    assert!(!a.accepts(&Tree::Node("g".into(), vec![c(), Tree::Node("d".into(), vec![])])));
}
