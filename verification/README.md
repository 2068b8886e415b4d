# potter_poc

Virial coefficients of pair potentials that the user writes as expression
strings (`4*eps*((sig/r)**12 - (sig/r)**6)`), with the expression language
and its code generators verified in Verus.

## Layout

- `src/` — the verified library.
  - `dsl/` — the expression language: `lexer` (bytes to tokens, numeric
    literals left as text), `parser` (precedence climbing, specified by the
    spec functions `parse_expr`/`parse_infix`/`parse_prefix`), `optimize`
    (folding integer-valued exponents into `IPow`), `program` (value-numbered
    flattening with shared subexpressions), `compile` (the pipelines), and
    `laws` (precedence, idempotence and round-trip properties).
  - `aot.rs` — planning and emitting a WebAssembly module for an expression;
    `machine.rs` — a symbolic stack machine for the emitted code, and the law
    that an emitted body computes its expression with every operand, local
    and call in range; `wasm.rs` — the `wasm-encoder` and `wasmparser` calls,
    with their contracts.
  - `jit.rs` — the SSA plan that the native (cranelift) backend replays: its
    lowering, well-formedness, and the tree it computes, with integer powers
    by repeated squaring; `fastexpr.rs` — the `fasteval` backend's front end
    (the source in fasteval's syntax, its parse and compile).
  - `rng.rs` — SplitMix64; `isotope.rs` — the helium isotope selector.
- `tests/` — tests of the library on concrete inputs.
- `app/` — the floating-point side: evaluators, integrators, potentials,
  Monte Carlo, the cranelift code generation (replaying the plan), fasteval
  evaluation, and the demo `main`.
