//! The weight ω of stars, constellations and behaviours, visibility, and the
//! encoding `[[p]]` of relative integers whose weight is `p`.
//!
//! * a star with `n` objective rays (positive or neutral head) weighs `2 − n`
//!   when all its rays are objective, and `−n` otherwise;
//! * a constellation weighs the sum of its stars' weights;
//! * a behaviour, given by its non-empty family of members, weighs the
//!   largest of its members' weights;
//! * a constellation is visible when its weight is at least 0.
use vstd::prelude::*;
use crate::term::{lemma_views_of, views_of, Polarity, Term, TermV};
use crate::constellation::{cons_v, star_kind, star_kind_spec, star_v, subjective, Constellation, Star, StarKind};
use crate::polarised::{neg_ray, pos_ray, ray_polarity};

verus! {

broadcast use vstd::std_specs::vec::group_vec_axioms;

/// Number of objective rays (head not negative) of a star.
pub open spec fn objective_count(s: Seq<TermV>) -> nat
    decreases s.len(),
{
    if s.len() == 0 {
        0
    } else {
        objective_count(s.drop_last()) + if subjective(s.last()) {
            0nat
        } else {
            1nat
        }
    }
}

/// ω of a star.
pub open spec fn star_weight_spec(s: Seq<TermV>) -> int {
    let n = objective_count(s) as int;
    match star_kind_spec(s) {
        StarKind::Objective => 2 - n,
        _ => -n,
    }
}

/// ω is determined ray by ray: the empty star weighs 2; adding an objective
/// ray lowers the weight by 1; adding the first subjective ray lowers it by 2;
/// adding a further subjective ray leaves it unchanged. So a star with a
/// subjective ray weighs minus its number of objective rays, however many
/// subjective rays it has, and a star of objective rays only weighs 2 minus
/// its length.
pub proof fn lemma_star_weight_push(s: Seq<TermV>, r: TermV)
    ensures
        star_weight_spec(Seq::empty()) == 2,
        !subjective(r) ==> star_weight_spec(s.push(r)) == star_weight_spec(s) - 1,
        subjective(r) && (exists|k: int| 0 <= k < s.len() && subjective(#[trigger] s[k]))
            ==> star_weight_spec(s.push(r)) == star_weight_spec(s),
        subjective(r) && (forall|k: int| 0 <= k < s.len() ==> !subjective(#[trigger] s[k]))
            ==> star_weight_spec(s.push(r)) == star_weight_spec(s) - 2,
{
    let t = s.push(r);
    assert(t.drop_last() =~= s);
    assert(t.last() == r);
    assert forall|k: int| 0 <= k < s.len() implies #[trigger] t[k] == s[k] by {}
    if forall|k: int| 0 <= k < s.len() ==> !subjective(#[trigger] s[k]) {
        if !subjective(r) {
            assert forall|k: int| 0 <= k < t.len() implies !subjective(#[trigger] t[k]) by {
                if k < s.len() { assert(t[k] == s[k]); }
            }
        } else {
            assert(subjective(t[t.len() - 1]));
        }
    } else {
        let k0 = choose|k: int| 0 <= k < s.len() && subjective(#[trigger] s[k]);
        assert(t[k0] == s[k0]);
        assert(subjective(t[k0]));
    }
    if s.len() > 0 && !subjective(s[0]) && !subjective(r) {
        assert(t[0] == s[0]);
    }
}

/// A star with a subjective ray weighs minus its number of objective rays; a
/// star all of whose rays are objective weighs 2 minus its number of rays.
pub proof fn lemma_star_weight_closed_form(s: Seq<TermV>)
    ensures
        (exists|k: int| 0 <= k < s.len() && subjective(#[trigger] s[k])) ==> star_weight_spec(s) == -(s.filter(
            |r: TermV| !subjective(r),
        ).len() as int),
        (forall|k: int| 0 <= k < s.len() ==> !subjective(#[trigger] s[k])) ==> star_weight_spec(s) == 2
            - s.len(),
    decreases s.len(),
{
    if s.len() > 0 {
        let s0 = s.drop_last();
        let r = s.last();
        assert(s0.push(r) =~= s);
        lemma_star_weight_closed_form(s0);
        lemma_star_weight_push(s0, r);
        reveal_with_fuel(Seq::<TermV>::filter, 1);
        assert(s.filter(|r: TermV| !subjective(r)) == if !subjective(r) {
            s0.filter(|r: TermV| !subjective(r)).push(r)
        } else {
            s0.filter(|r: TermV| !subjective(r))
        });
        assert forall|k: int| 0 <= k < s0.len() implies #[trigger] s[k] == s0[k] by {}
        if exists|k: int| 0 <= k < s.len() && subjective(#[trigger] s[k]) {
            if !(exists|k: int| 0 <= k < s0.len() && subjective(#[trigger] s0[k])) {
                assert(subjective(r)) by {
                    let k = choose|k: int| 0 <= k < s.len() && subjective(#[trigger] s[k]);
                    if k < s0.len() {
                        assert(s0[k] == s[k]);
                    }
                }
                assert forall|k: int| 0 <= k < s0.len() implies !subjective(#[trigger] s0[k]) by {}
                assert(s0.filter(|r: TermV| !subjective(r)).len() == s0.len()) by {
                    lemma_filter_all(s0);
                }
            }
        } else {
            assert(!subjective(s[s.len() - 1]));
            assert forall|k: int| 0 <= k < s0.len() implies !subjective(#[trigger] s0[k]) by {
                assert(s[k] == s0[k]);
            }
        }
    } else {
        assert(s =~= Seq::<TermV>::empty());
    }
}

proof fn lemma_filter_all(s: Seq<TermV>)
    requires
        forall|k: int| 0 <= k < s.len() ==> !subjective(#[trigger] s[k]),
    ensures
        s.filter(|r: TermV| !subjective(r)).len() == s.len(),
    decreases s.len(),
{
    reveal_with_fuel(Seq::<TermV>::filter, 1);
    if s.len() > 0 {
        let s0 = s.drop_last();
        assert forall|k: int| 0 <= k < s0.len() implies !subjective(#[trigger] s0[k]) by {
            assert(s[k] == s0[k]);
        }
        lemma_filter_all(s0);
        assert(!subjective(s[s.len() - 1]));
    }
}

/// ω of a constellation: the sum over its stars.
pub open spec fn constellation_weight_spec(c: Seq<Seq<TermV>>) -> int
    decreases c.len(),
{
    if c.len() == 0 {
        0
    } else {
        constellation_weight_spec(c.drop_last()) + star_weight_spec(c.last())
    }
}

/// ω of a behaviour given by its members: the largest member weight.
pub open spec fn behaviour_weight_spec(ms: Seq<Seq<Seq<TermV>>>) -> int
    decreases ms.len(),
{
    if ms.len() == 0 {
        0
    } else if ms.len() == 1 {
        constellation_weight_spec(ms[0])
    } else {
        let w = constellation_weight_spec(ms.last());
        let m = behaviour_weight_spec(ms.drop_last());
        if w > m {
            w
        } else {
            m
        }
    }
}

/// A bound on the size of every partial weight sum of a constellation:
/// each star counts its rays and two more.
pub open spec fn weight_room(c: Seq<Seq<TermV>>) -> nat
    decreases c.len(),
{
    if c.len() == 0 {
        0
    } else {
        weight_room(c.drop_last()) + c.last().len() + 2
    }
}

/// Models of a family of constellations.
pub open spec fn members_v(ms: Seq<Constellation>) -> Seq<Seq<Seq<TermV>>> {
    Seq::new(ms.len(), |i: int| cons_v(ms[i]@))
}

proof fn lemma_objective_count_le(s: Seq<TermV>)
    ensures
        objective_count(s) <= s.len(),
    decreases s.len(),
{
    if s.len() > 0 {
        lemma_objective_count_le(s.drop_last());
    }
}

proof fn lemma_weight_bounded(c: Seq<Seq<TermV>>)
    ensures
        -weight_room(c) <= constellation_weight_spec(c) <= weight_room(c),
    decreases c.len(),
{
    if c.len() > 0 {
        lemma_weight_bounded(c.drop_last());
        lemma_objective_count_le(c.last());
    }
}

proof fn lemma_room_prefix(c: Seq<Seq<TermV>>, i: int)
    requires
        0 <= i <= c.len(),
    ensures
        weight_room(c.take(i)) <= weight_room(c),
    decreases c.len() - i,
{
    if i < c.len() {
        lemma_room_prefix(c, i + 1);
        assert(c.take(i + 1).drop_last() =~= c.take(i));
    } else {
        assert(c.take(i) =~= c);
    }
}

fn count_objective_rays(star: &Star) -> (n: usize)
    ensures
        n as nat == objective_count(star_v(star@)),
        n <= star.len(),
{
    let ghost s = star_v(star@);
    proof {
        lemma_views_of(star@);
    }
    let mut n: usize = 0;
    let mut i: usize = 0;
    while i < star.len()
        invariant
            i <= star.len(),
            s == star_v(star@),
            s.len() == star.len(),
            forall|k: int| 0 <= k < star.len() ==> s[k] == star[k]@,
            n as nat == objective_count(s.take(i as int)),
            n <= i,
        decreases star.len() - i,
    {
        assert(s.take(i + 1).drop_last() =~= s.take(i as int));
        let p = ray_polarity(&star[i]);
        if p == Polarity::Pos || p == Polarity::Neutral {
            n += 1;
        }
        i += 1;
    }
    assert(s.take(star.len() as int) =~= s);
    n
}

/// ω of a star: `2 − n` for a star whose `n` rays are all objective, `−n`
/// for one with `n` objective rays and at least one subjective ray.
pub fn star_weight(star: &Star) -> (w: i64)
    requires
        star.len() + 2 <= i64::MAX,
    ensures
        w == star_weight_spec(star_v(star@)),
{
    let n = count_objective_rays(star) as i64;
    match star_kind(star) {
        StarKind::Objective => 2 - n,
        StarKind::Subjective => -n,
        StarKind::Animist => -n,
    }
}

/// ω of a constellation: the sum of its stars' weights.
pub fn constellation_weight(phi: &Constellation) -> (w: i64)
    requires
        weight_room(cons_v(phi@)) <= i64::MAX,
    ensures
        w == constellation_weight_spec(cons_v(phi@)),
{
    let ghost c = cons_v(phi@);
    let mut total: i64 = 0;
    let mut i: usize = 0;
    while i < phi.len()
        invariant
            i <= phi.len(),
            c == cons_v(phi@),
            c.len() == phi.len(),
            weight_room(c) <= i64::MAX,
            total == constellation_weight_spec(c.take(i as int)),
        decreases phi.len() - i,
    {
        proof {
            assert(c.take(i + 1).drop_last() =~= c.take(i as int));
            lemma_room_prefix(c, i + 1);
            lemma_weight_bounded(c.take(i + 1));
            lemma_weight_bounded(c.take(i as int));
            lemma_objective_count_le(c[i as int]);
            lemma_views_of(phi[i as int]@);
        }
        let w = star_weight(&phi[i]);
        total = total + w;
        i += 1;
    }
    assert(c.take(phi.len() as int) =~= c);
    total
}

/// The weight of a behaviour is at least each member's weight, and is the
/// weight of one of them.
pub proof fn lemma_behaviour_weight_is_max(ms: Seq<Seq<Seq<TermV>>>)
    requires
        ms.len() > 0,
    ensures
        forall|i: int| 0 <= i < ms.len() ==> behaviour_weight_spec(ms) >= constellation_weight_spec(
            #[trigger] ms[i],
        ),
        exists|i: int| 0 <= i < ms.len() && behaviour_weight_spec(ms) == constellation_weight_spec(
            #[trigger] ms[i],
        ),
    decreases ms.len(),
{
    if ms.len() > 1 {
        let init = ms.drop_last();
        lemma_behaviour_weight_is_max(init);
        assert forall|i: int| 0 <= i < ms.len() implies behaviour_weight_spec(ms)
            >= constellation_weight_spec(#[trigger] ms[i]) by {
            if i < ms.len() - 1 {
                assert(ms[i] == init[i]);
            }
        }
        let j = choose|j: int|
            0 <= j < init.len() && behaviour_weight_spec(init) == constellation_weight_spec(
                #[trigger] init[j],
            );
        if constellation_weight_spec(ms.last()) > behaviour_weight_spec(init) {
            assert(ms[ms.len() - 1] == ms.last());
        } else {
            assert(ms[j] == init[j]);
        }
    } else {
        assert(ms[0] == ms[0]);
    }
}

/// ω of a behaviour, given by its non-empty family of member constellations:
/// the largest member weight.
pub fn behaviour_weight(members: &[Constellation]) -> (w: i64)
    requires
        members.len() > 0,
        forall|i: int| 0 <= i < members.len() ==> weight_room(cons_v(#[trigger] members[i]@))
            <= i64::MAX,
    ensures
        w == behaviour_weight_spec(members_v(members@)),
        forall|i: int| 0 <= i < members.len() ==> w >= constellation_weight_spec(
            cons_v(#[trigger] members[i]@),
        ),
        exists|i: int| 0 <= i < members.len() && w == constellation_weight_spec(
            cons_v(#[trigger] members[i]@),
        ),
{
    let ghost ms = members_v(members@);
    let mut best = constellation_weight(&members[0]);
    let mut i: usize = 1;
    proof {
        assert(ms.take(1).len() == 1);
        assert(ms.take(1)[0] == ms[0]);
    }
    while i < members.len()
        invariant
            1 <= i <= members.len(),
            ms == members_v(members@),
            ms.len() == members.len(),
            forall|k: int| 0 <= k < members.len() ==> weight_room(cons_v(#[trigger] members[k]@))
                <= i64::MAX,
            best == behaviour_weight_spec(ms.take(i as int)),
        decreases members.len() - i,
    {
        let w = constellation_weight(&members[i]);
        proof {
            assert(ms.take(i + 1).drop_last() =~= ms.take(i as int));
            assert(ms.take(i + 1).last() == ms[i as int]);
        }
        if w > best {
            best = w;
        }
        i += 1;
    }
    proof {
        assert(ms.take(members.len() as int) =~= ms);
        lemma_behaviour_weight_is_max(ms);
        assert forall|i: int| 0 <= i < members.len() implies best >= constellation_weight_spec(
            cons_v(#[trigger] members[i]@),
        ) by {
            assert(ms[i] == cons_v(members[i]@));
        }
        let j = choose|j: int|
            0 <= j < ms.len() && behaviour_weight_spec(ms) == constellation_weight_spec(
                #[trigger] ms[j],
            );
        assert(ms[j] == cons_v(members[j]@));
    }
    best
}

/// A constellation is visible when its weight is at least 0.
pub fn visible(phi: &Constellation) -> (r: bool)
    requires
        weight_room(cons_v(phi@)) <= i64::MAX,
    ensures
        r == (constellation_weight_spec(cons_v(phi@)) >= 0),
{
    constellation_weight(phi) >= 0
}

/// The objective ray `+fu`.
pub open spec fn fu() -> TermV {
    TermV::App(seq!['f', 'u'], Polarity::Pos, Seq::empty())
}

/// The subjective ray `-wo`.
pub open spec fn wo() -> TermV {
    TermV::App(seq!['w', 'o'], Polarity::Neg, Seq::empty())
}

/// The encoding `[[p]]`: for `p >= 0`, `p` stars `[+fu]` and the star `[-wo]`;
/// for `p < 0`, the single star of `−p` rays `+fu` and the ray `-wo`.
pub open spec fn encoding(p: int) -> Seq<Seq<TermV>> {
    if p >= 0 {
        Seq::new(p as nat, |i: int| seq![fu()]).push(seq![wo()])
    } else {
        seq![Seq::new((-p) as nat, |i: int| fu()).push(wo())]
    }
}

fn fu_ray() -> (r: Term)
    ensures
        r@ == fu(),
{
    proof {
        reveal_strlit("fu");
        assert("fu"@ =~= seq!['f', 'u']);
        assert(views_of(Seq::<Term>::empty()) =~= Seq::<TermV>::empty());
    }
    let r = pos_ray("fu", Vec::new());
    assert(r@ == fu());
    r
}

fn wo_ray() -> (r: Term)
    ensures
        r@ == wo(),
{
    proof {
        reveal_strlit("wo");
        assert("wo"@ =~= seq!['w', 'o']);
        assert(views_of(Seq::<Term>::empty()) =~= Seq::<TermV>::empty());
    }
    let r = neg_ray("wo", Vec::new());
    assert(r@ == wo());
    r
}

proof fn lemma_weight_prefix_stars(p: nat)
    ensures
        constellation_weight_spec(Seq::new(p, |i: int| seq![fu()])) == p,
    decreases p,
{
    if p > 0 {
        let c = Seq::new(p, |i: int| seq![fu()]);
        assert(c.drop_last() =~= Seq::new((p - 1) as nat, |i: int| seq![fu()]));
        lemma_weight_prefix_stars((p - 1) as nat);
        let s = c.last();
        assert(s.drop_last() =~= Seq::<TermV>::empty());
        assert(s.last() == fu());
        assert(!subjective(s[0]));
        assert(objective_count(Seq::<TermV>::empty()) == 0);
        assert(objective_count(s) == 1);
        assert(star_kind_spec(s) == StarKind::Objective);
        assert(star_weight_spec(s) == 1);
    }
}

proof fn lemma_objective_count_fu(n: nat)
    ensures
        objective_count(Seq::new(n, |i: int| fu())) == n,
    decreases n,
{
    if n > 0 {
        let s = Seq::new(n, |i: int| fu());
        assert(s.drop_last() =~= Seq::new((n - 1) as nat, |i: int| fu()));
        lemma_objective_count_fu((n - 1) as nat);
    }
}

/// The weight of the encoding of `p` is `p`, as a constellation and as the
/// only member of a behaviour.
pub proof fn lemma_encoding_weight(p: int)
    ensures
        constellation_weight_spec(encoding(p)) == p,
        behaviour_weight_spec(seq![encoding(p)]) == p,
{
    let c = encoding(p);
    if p >= 0 {
        let stars = Seq::new(p as nat, |i: int| seq![fu()]);
        assert(c.drop_last() =~= stars);
        lemma_weight_prefix_stars(p as nat);
        let s = seq![wo()];
        assert(c.last() == s);
        assert(s.drop_last() =~= Seq::<TermV>::empty());
        assert(s.last() == wo());
        assert(subjective(s[0]));
        assert(objective_count(Seq::<TermV>::empty()) == 0);
        assert(objective_count(s) == 0);
        assert(star_kind_spec(s) == StarKind::Subjective);
        assert(star_weight_spec(s) == 0);
        assert(constellation_weight_spec(c) == constellation_weight_spec(c.drop_last())
            + star_weight_spec(c.last()));
    } else {
        let n = (-p) as nat;
        let s = Seq::new(n, |i: int| fu()).push(wo());
        assert(c.drop_last() =~= Seq::<Seq<TermV>>::empty());
        assert(c.last() == s);
        assert(s.drop_last() =~= Seq::new(n, |i: int| fu()));
        lemma_objective_count_fu(n);
        assert(subjective(s[n as int]));
        assert(!subjective(s[0]));
        assert(s.last() == wo());
        assert(objective_count(s) == n);
        assert(star_kind_spec(s) == StarKind::Animist);
        assert(constellation_weight_spec(c) == constellation_weight_spec(c.drop_last())
            + star_weight_spec(c.last()));
    }
    assert(seq![c][0] == c);
}

/// A representative constellation of `[[p]]`, whose weight is `p`.
pub fn nat_behaviour(p: i64) -> (r: Constellation)
    requires
        p > i64::MIN,
    ensures
        cons_v(r@) == encoding(p as int),
        constellation_weight_spec(cons_v(r@)) == p,
{
    proof {
        lemma_encoding_weight(p as int);
    }
    if p >= 0 {
        let mut phi: Vec<Star> = Vec::new();
        let mut i: i64 = 0;
        while i < p
            invariant
                0 <= i <= p,
                phi.len() == i,
                cons_v(phi@) == Seq::new(i as nat, |k: int| seq![fu()]),
            decreases p - i,
        {
            let f = fu_ray();
            let star = vec![f];
            proof {
                lemma_views_of(star@);
                assert(views_of(star@) =~= seq![fu()]);
            }
            let ghost old_phi = phi@;
            phi.push(star);
            i += 1;
            assert forall|k: int| 0 <= k < i implies #[trigger] cons_v(phi@)[k] == seq![fu()] by {
                if k < i - 1 {
                    assert(phi@[k] == old_phi[k]);
                    assert(cons_v(old_phi)[k] == seq![fu()]);
                }
            }
            assert(cons_v(phi@) =~= Seq::new(i as nat, |k: int| seq![fu()]));
        }
        let w = wo_ray();
        let last = vec![w];
        proof {
            lemma_views_of(last@);
            assert(views_of(last@) =~= seq![wo()]);
        }
        let ghost old_phi = phi@;
        phi.push(last);
        assert forall|k: int| 0 <= k < p implies #[trigger] cons_v(phi@)[k] == seq![fu()] by {
            assert(phi@[k] == old_phi[k]);
            assert(cons_v(old_phi)[k] == seq![fu()]);
        }
        assert(cons_v(phi@) =~= encoding(p as int));
        phi
    } else {
        let n = -p;
        let mut star: Vec<Term> = Vec::new();
        let mut i: i64 = 0;
        while i < n
            invariant
                0 <= i <= n,
                n == -p,
                star_v(star@) == Seq::new(i as nat, |k: int| fu()),
            decreases n - i,
        {
            let f = fu_ray();
            let ghost before = star@;
            proof {
                lemma_views_of(star@);
            }
            star.push(f);
            proof {
                lemma_views_of(star@);
                assert(star@.drop_last() =~= before);
            }
            i += 1;
            assert(star_v(star@) =~= Seq::new(i as nat, |k: int| fu()));
        }
        let w = wo_ray();
        let ghost before = star@;
        proof {
            lemma_views_of(star@);
        }
        star.push(w);
        proof {
            lemma_views_of(star@);
            assert(star@.drop_last() =~= before);
            assert(star_v(star@) =~= Seq::new(n as nat, |k: int| fu()).push(wo()));
        }
        let phi = vec![star];
        assert(cons_v(phi@) =~= encoding(p as int));
        phi
    }
}

/// ω is additive: the empty constellation weighs 0, and a union weighs the
/// sum of its parts.
pub proof fn lemma_constellation_weight_additive(a: Seq<Seq<TermV>>, b: Seq<Seq<TermV>>)
    ensures
        constellation_weight_spec(Seq::<Seq<TermV>>::empty()) == 0,
        constellation_weight_spec(a + b) == constellation_weight_spec(a) + constellation_weight_spec(b),
    decreases b.len(),
{
    if b.len() == 0 {
        assert(a + b =~= a);
    } else {
        lemma_constellation_weight_additive(a, b.drop_last());
        assert((a + b).drop_last() =~= a + b.drop_last());
        assert((a + b).last() == b.last());
    }
}

} // verus!
