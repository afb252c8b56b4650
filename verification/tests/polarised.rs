use stella_core::polarised::{matchable, matchable_fast, mk_app_str};
use stella_core::term::{mk_var, Term};

/// Deterministic LCG — reproducible fuzz, no dev-deps.
struct Lcg(u64);
impl Lcg {
    fn next(&mut self) -> u64 {
        self.0 = self.0.wrapping_mul(6364136223846793005).wrapping_add(1);
        self.0 >> 17
    }
    fn pick<'a, T>(&mut self, xs: &'a [T]) -> &'a T {
        &xs[(self.next() as usize) % xs.len()]
    }
}

fn gen(rng: &mut Lcg, depth: u32) -> Term {
    if depth == 0 || rng.next() % 3 == 0 {
        let name = *rng.pick(&["X", "Y", "Z"]);
        return mk_var(name);
    }
    let head = *rng.pick(&["f", "g", "h"]);
    let ar = (rng.next() % 3) as usize;
    let args: Vec<Term> = (0..ar).map(|_| gen(rng, depth - 1)).collect();
    mk_app_str(head, args)
}

fn gen_ray(rng: &mut Lcg) -> Term {
    let head = *rng.pick(&["+p", "-p", "+q", "-q", "p", "q"]);
    let ar = 1 + (rng.next() % 3) as usize;
    let args: Vec<Term> = (0..ar).map(|_| gen(rng, 3)).collect();
    mk_app_str(head, args)
}

#[test]
fn matchable_fast_equiv_matchable_fuzz() {
    let mut rng = Lcg(0x5314_2718_2845_9045);
    let mut checked = 0u32;
    for _ in 0..20_000 {
        let a = gen_ray(&mut rng);
        let b = gen_ray(&mut rng);
        assert_eq!(
            matchable_fast(&a, &b),
            matchable(&a, &b),
            "matchable_fast disagrees with matchable on ({a:?}, {b:?})"
        );
        checked += 1;
    }
    assert_eq!(checked, 20_000);
}

#[test]
fn shared_var_is_alpha_disjoint() {
    let a = mk_app_str("+p", vec![mk_var("X")]);
    let b = mk_app_str("-p", vec![mk_app_str("g", vec![mk_var("X")])]);
    assert_eq!(matchable_fast(&a, &b), matchable(&a, &b));
    assert!(matchable_fast(&a, &b), "α-disjoint: +p(Xᴸ) ⋈ -p(g(Xᴿ))");
}
