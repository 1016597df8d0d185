# Pluck

Pluck is a probabilistic programming language with exact inference by lazy
knowledge compilation. Programs may hold continuous variables, as observations
or as conjugate latents. This is a verified implementation of its front end,
its inference engine and the answers to its queries; contracts and proofs are
checked by Verus.

## Layout

- `src/language` – tokens, grammar, parser, top-level forms, types,
  definitions and run-time values.
- `src/discrete_factorizations.rs` – Boolean functions as ordered decision
  diagrams.
- `src/inference/lazy_kc` – the meaning of programs, the compiler from
  programs to guarded worlds, and the sampling evaluator.
- `src/inference/spn` – sum-product networks: normal form, products, weighted
  model counts, likelihoods, posteriors and mixture components.
- `src/inference` – integers by bits, assignments, forcing of samples.
- `src/results` – positions, display names, texts, posteriors for display,
  mixture items, queries.
- `src/utils` – intervals, union-find, infinitesimal weights, numbers by their
  bits, decimal texts, statistics.
- `app` – the command line around the library: files, floating-point
  arithmetic, conjugate families and printing.
- `tests` – tests of the library.

## Numbers

The library holds double-precision numbers by their bits. It compares them
itself; arithmetic, and that of conjugate families, is passed in as functions,
and contracts speak of what these functions answer.

## Running programs

The program reads `stdlib.pluck` from the working directory and then the file
that is given:

```
pluck program.pluck
```

`PLUCK_STATS` shows sizes and times, `PLUCK_DISPLAY_PRECISION` sets the number
of decimals.

Gibbs queries are recognised, but no chain is run: the program says that chains
are not available. There is no limit on time.
