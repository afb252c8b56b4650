use stella_core::pda::{eng_fig562_npda, eng_fig562_npda_constellation, encode_npda, fig562_accepts, npda_accepts, npda_constellation};

#[test]
fn npda_accepts_01() {
    assert!(fig562_accepts(&["0", "1"], 4000), "NPDA should accept '01'");
}

#[test]
fn npda_epsilon_not_accepted_by_fig562() {
    assert!(!fig562_accepts(&[], 2000));
}

#[test]
fn npda_rejects_001() {
    assert!(!fig562_accepts(&["0", "0", "1"], 8000));
}

#[test]
fn npda_rejects_10() {
    assert!(!fig562_accepts(&["1", "0"], 4000));
}

#[test]
fn npda_rejects_0() {
    assert!(!fig562_accepts(&["0"], 4000));
}

#[test]
fn npda_constellation_structure() {
    let phi = eng_fig562_npda_constellation(1);
    assert_eq!(phi.len(), 6);
    let init_star = &phi[0];
    assert_eq!(init_star.len(), 2);
    assert_eq!(init_star[0].head(), Some("-i".to_string()));
    assert_eq!(init_star[1].head(), Some("+p".to_string()));
    let final_star = &phi[1];
    assert_eq!(final_star.len(), 2);
    assert_eq!(final_star[0].head(), Some("-p".to_string()));
    assert_eq!(final_star[1].head(), Some("accept".to_string()));
}

#[test]
fn generic_encoding_counts_stars() {
    let pda = eng_fig562_npda();
    let c = encode_npda(&pda, 2);
    // one initial, one final, two copies of four transitions
    assert_eq!(c.len(), 1 + 1 + 8);
    let with_word = npda_constellation(&pda, &["0", "1"], 1);
    assert_eq!(with_word.len(), 1 + 1 + 1 + 4);
    assert_eq!(with_word[0][0].text(), "+i(cons(0, cons(1, eps)))");
    // a transition without input leaves W bare; one without stack leaves S bare
    assert_eq!(c[5][0].text(), "-p(W, q1, S)");
    assert_eq!(c[5][1].text(), "+p(W, q2, S)");
    assert_eq!(c[2][1].text(), "+p(W, q0, cons(0, S))");
}

#[test]
fn generic_encoding_runs_01() {
    let pda = eng_fig562_npda();
    assert!(npda_accepts(&pda, &["0", "1"], 3, 4000));
    assert!(!npda_accepts(&pda, &["1", "0"], 3, 4000));
}

#[test]
fn fig562_automaton_is_the_0n1n_machine() {
    let a = eng_fig562_npda();
    assert_eq!(a.states, vec!["q0".to_string(), "q1".to_string(), "q2".to_string()]);
    assert_eq!(a.alphabet, vec!["0".to_string(), "1".to_string()]);
    assert_eq!(a.stack_alphabet, vec!["0".to_string(), "$".to_string()]);
    assert_eq!(a.initial, vec!["q0".to_string()]);
    assert_eq!(a.finals, vec!["q2".to_string()]);
    let s = |x: &str| x.to_string();
    assert_eq!(
        a.transitions,
        vec![
            (s("q0"), Some(s("0")), None, s("q0"), Some(s("0"))),
            (s("q0"), Some(s("1")), Some(s("0")), s("q1"), None),
            (s("q1"), Some(s("1")), Some(s("0")), s("q1"), None),
            (s("q1"), None, None, s("q2"), None),
        ]
    );
}
