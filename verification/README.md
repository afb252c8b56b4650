# stella_core

Stellar resolution with verified contracts: first-order terms over a
polarised signature, unification, stars and constellations, interactive
execution `IEx`, and the encodings built on them (automata, tree automata,
MLL and MLL2I proof-structures, modulation of values, the weight ω).

Every function in `src/` is verified by Verus against a contract stated over
mathematical models (`Seq`, `Map`, `Set`, `int`): a term's model is `TermV`,
a star's a `Seq<TermV>`, a constellation's a `Seq<Seq<TermV>>`.

Layout of `src/`:

- `term`, `subst`, `unify`, `alpha`: terms, substitutions, most general
  unifiers (sound, complete, idempotent), α-unification.
- `polarised`, `constellation`: polarities, matchability `⋈`, stars, colours,
  concealment, α-equivalence of stars.
- `interactive`: one interaction step, `IEx`, its tabled variant, and the
  exact decomposition of a step into summands with their unifiers.
- `display`: written forms of terms and stars, and their order.
- `parse`: the textual syntax of constellations.
- `pda`, `nfta`: pushdown and tree automata as constellations.
- `mll`, `mll2i`: proof-structures, path addresses, `Φ^comp`, switchings,
  test constellations, the classical Danos–Regnier test, cut elimination
  trajectories.
- `modulation`, `omega_weight`, `prim`, `perturbation`, `oracle`,
  `termkit`: encodings of values, weights, primitive programs, perturbing
  environments, oracle reports, term builders.

The tests under `tests/` run the library on concrete cases.

## What is not here

Several modules that the rest of the project relies on could not be read
here: `execution` (abstract execution `AEx`), `dep_graph`, `faithfulness`,
`index`, `spec_phi`, `antiunify`, `combinator`, `arith`, `binarith`,
`automata`, `reafference`. The modules `term`, `subst`, `unify`, `alpha` and
`constellation` are written here from how the rest of the code uses them.
What rests on the missing ones is absent:

- everything built on abstract execution: cut elimination checked by `AEx`
  (`cut_elim_via_aex` in `mll` and `mll2i`), the stellar Danos–Regnier test
  `dr_correct`, orthogonality and behaviours (`orth_one`, `orth_roots`,
  `orthogonal`, `orthogonal_set`, `biorth`, `is_behaviour`, `tensor`, `par`,
  `lollipop`, `mll_bottom`, `in_mll_bottom`), and Girard's criterion
  (`girard_correct`, `check_switching`);
- the evaluator of primitive programs (`prim::eval`, which needs `arith`
  and `combinator`) and the oracle aggregate `oracle::check_all`;
- the perturbation-response measurement and its gates, which read
  floating-point profiles and closure witnesses of `reafference`.

Also absent: the index structures of the accelerated engine (`IexAccel`,
its discrimination tree and specialised realisers, and the functions taking
it). `iex_fast` and `iex_spec` keep its redex selection: after a step at
star `i` the scan for the next redex resumes at `i`, which is proved to
select the same redex as a scan from the start. The H1 redex tap
(`h1_tap_begin`, `h1_tap_take`, `h1_tap_capped`) is global thread-local
state, which a verified library cannot hold.

The hash sets and maps the project took from `rustc_hash` (`FxHashMap`,
`FxHashSet`) are replaced by lists: sorted lists of vertices, lists of
keyed pairs, a list of table keys. Their use here is membership and
iteration, which the lists give with contracts; the crate's source was not
available to declare its types.

`Nfta::accepts` is acceptance by a successful top-down run: at each node
some rule applies and every child is accepted in its successor state, so the
formula automaton accepts exactly the formulas that evaluate to true. The
machine constellation `T★` is still built by `machine_constellation`.
