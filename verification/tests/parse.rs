use stella_core::constellation::Constellation;
use stella_core::interactive::{iex, IExResult};
use stella_core::parse::{parse_constellation, parse_psi, parse_star};
use stella_core::term::Var;

fn fmt_c(c: &Constellation) -> String {
    c.iter()
        .map(|s| {
            let rays: Vec<String> = s.iter().map(|r| r.text()).collect();
            format!("[{}]", rays.join(", "))
        })
        .collect::<Vec<_>>()
        .join(" + ")
}

#[test]
fn parses_horn_add_and_runs() {
    let phi = parse_constellation("[+add(0, Y, Y)] + [-add(X, Y, Z), +add(s(X), Y, s(Z))]")
        .expect("phi parses");
    assert_eq!(phi.len(), 2);
    let psi = parse_constellation("[-add(s(0), s(0), R), R]").expect("psi parses");
    let out = iex(&phi, psi, 200);
    let s: String = out
        .psi
        .iter()
        .map(|st| st.iter().map(|r| r.text()).collect::<String>())
        .collect();
    assert!(s.contains("s(s(0))"), "1+1 should be s(s(0)); got {s}");
}

#[test]
fn parse_constellation_is_exact_no_rename() {
    let c = parse_constellation("[+f(X)] + [-f(X), X]").unwrap();
    let v0: Vec<Var> = c[0].iter().flat_map(|r| r.vars()).collect();
    let v1: Vec<Var> = c[1].iter().flat_map(|r| r.vars()).collect();
    assert!(v1.contains(&v0[0]), "Φ parse keeps shared names as written");
}

#[test]
fn parse_psi_disambiguates_linearly_and_is_idempotent() {
    let c = parse_psi("[+f(X)] + [-f(X), X]").unwrap();
    let v0: Vec<Var> = c[0].iter().flat_map(|r| r.vars()).collect();
    let v1: Vec<Var> = c[1].iter().flat_map(|r| r.vars()).collect();
    for a in &v0 {
        assert!(!v1.contains(a), "Ψ stars must not share variables");
    }
    let s1 = fmt_c(&c);
    let s2 = fmt_c(&parse_psi(&s1).unwrap());
    assert_eq!(s1, s2, "parse_psi must be a fixed point");
}

#[test]
fn empty_and_unicode_minus() {
    assert_eq!(parse_constellation("").unwrap().len(), 0);
    assert_eq!(parse_constellation("[]").unwrap().len(), 1);
    let c = parse_constellation("[−f(X), X]").unwrap();
    assert_eq!(c.len(), 1);
    assert_eq!(c[0].len(), 2);
}

#[test]
fn rejects_garbage() {
    assert!(parse_constellation("[+f(X)").is_err());
    assert!(parse_constellation("+f(X)]").is_err());
    assert!(parse_constellation("[f(]]").is_err());
}

#[test]
fn round_trips_unicode_and_operators() {
    let src = "[+i(·(0, ·(1, ε))), -q₀(W)] + [-i(W), accept]";
    let c = parse_constellation(src).expect("parses unicode symbols");
    let again = parse_constellation(&fmt_c(&c)).expect("re-parses its own Display");
    assert_eq!(fmt_c(&c), fmt_c(&again), "Display∘parse is idempotent");
    assert_eq!(c.len(), 2);
    assert_eq!(c[0].len(), 2);
}

#[test]
fn format_then_parse_runs_the_same() {
    let phi = parse_constellation("[+add(0, Y, Y)] + [-add(X, Y, Z), +add(s(X), Y, s(Z))]").unwrap();
    let psi = parse_constellation("[-add(s(s(0)), s(s(0)), R), R]").unwrap();
    let direct = iex(&phi, stella_core::constellation::copy_constellation(&psi), 200);
    let phi2 = parse_constellation(&fmt_c(&phi)).unwrap();
    let psi2 = parse_constellation(&fmt_c(&psi)).unwrap();
    let viafmt = iex(&phi2, psi2, 200);
    let s = |r: &IExResult| {
        r.psi
            .iter()
            .map(|st| st.iter().map(|x| x.text()).collect::<String>())
            .collect::<Vec<_>>()
            .join(" ")
    };
    assert!(s(&direct).contains("s(s(s(s(0))))"));
    assert!(s(&viafmt).contains("s(s(s(s(0))))"));
}

#[test]
fn error_positions_and_messages() {
    let e = parse_constellation("[+f(X)").unwrap_err();
    assert_eq!(e.pos, 6);
    assert_eq!(e.msg, "expected ',' or ']' in star");
    let e = parse_constellation("+f(X)]").unwrap_err();
    assert_eq!(e.pos, 0);
    assert_eq!(e.msg, "expected '[' to begin a star");
    let e = parse_constellation("[a] [b] x").unwrap_err();
    assert_eq!(e.msg, "expected '+' (or newline) between stars");
    assert_eq!(e.pos, 8);
    let e = parse_constellation("[a] + x").unwrap_err();
    assert_eq!(e.msg, "unexpected trailing input");
    assert_eq!(e.pos, 6);
    // byte offsets: the minus sign U+2212 takes three bytes
    let e = parse_constellation("[−f(X) ]]").unwrap_err();
    assert_eq!(e.msg, "expected '+' (or newline) between stars");
    assert_eq!(e.pos, 10);
}

#[test]
fn comments_newlines_and_single_star() {
    let c = parse_constellation("  [a, b] # first\n\n[c]\n ").unwrap();
    assert_eq!(c.len(), 2);
    assert_eq!(parse_star("[+f(X), Y]").unwrap().len(), 2);
    assert_eq!(parse_star("").unwrap().len(), 0);
    let e = parse_star("[a] + [b]").unwrap_err();
    assert_eq!(e.pos, 0);
    assert_eq!(e.msg, "expected a single star");
}

#[test]
fn psi_renames_only_later_stars() {
    let c = parse_psi("[X, Y] + [X] + [Y, X]").unwrap();
    assert_eq!(fmt_c(&c), "[X, Y] + [X_s1] + [Y_s2, X_s2]");
}

#[test]
fn psi_fails_where_constellation_fails() {
    for src in ["[+f(X)", "+f(X)]", "[f(]]", "[a] [b] x", "[a] + x"] {
        let a = parse_constellation(src).unwrap_err();
        let b = parse_psi(src).unwrap_err();
        assert_eq!((a.pos, a.msg), (b.pos, b.msg));
    }
    let src = "[+f(X), Y] + [Z] + [-g(Y, W)]";
    let c0 = parse_constellation(src).unwrap();
    let c = parse_psi(src).unwrap();
    assert_eq!(c.len(), c0.len());
    assert_eq!(fmt_c(&c[..2].to_vec()), fmt_c(&c0[..2].to_vec()));
    assert_eq!(fmt_c(&c), "[+f(X), Y] + [Z] + [-g(Y_s2, W)]");
}

fn star_vars(s: &Vec<stella_core::term::Term>) -> Vec<Var> {
    let mut out: Vec<Var> = Vec::new();
    for r in s {
        for v in r.vars() {
            if !out.contains(&v) {
                out.push(v);
            }
        }
    }
    out
}

#[test]
fn psi_stars_are_variable_disjoint() {
    let c = parse_psi("[+f(X, Y)] + [-f(X), Z, Y] + [X, Z, W]").unwrap();
    for i in 0..c.len() {
        for j in (i + 1)..c.len() {
            let vi = star_vars(&c[i]);
            assert!(star_vars(&c[j]).iter().all(|v| !vi.contains(v)));
        }
    }
    // A name written like a renaming keeps the stars apart unless it meets one.
    let e = parse_psi("[+f(X_s1)] + [-f(X)]").unwrap();
    assert_eq!(fmt_c(&e), "[+f(X_s1)] + [-f(X)]");
    assert_eq!(parse_psi(&fmt_c(&e)).unwrap(), e);
    let d = parse_psi("[+f(X), X_s1] + [-f(X)]").unwrap();
    assert_eq!(fmt_c(&d), "[+f(X), X_s1] + [-f(X_s1)]");
}

#[test]
fn written_constellations_read_back() {
    let c = parse_constellation("[+f(X, a), -g(Y)] + [] + [h, X_s1, +k(l(m), Z)]").unwrap();
    assert_eq!(parse_constellation(&fmt_c(&c)).unwrap(), c);
    let p = parse_psi("[+f(X)] + [-f(X), X] + [X, Y]").unwrap();
    assert_eq!(parse_psi(&fmt_c(&p)).unwrap(), p);
    assert_eq!(fmt_c(&p), "[+f(X)] + [-f(X_s1), X_s1] + [X_s2, Y]");
}
