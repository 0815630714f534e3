# rz3

An exact, deterministic SMT solver written in Verus: the library is verified, its contracts
are stated over mathematical models of its data.

A CDCL SAT solver decides the Boolean structure of the assertions (Tseitin encoding, with
bit-blasting of bit-vector equalities); theory solvers check each assignment: linear real
and integer arithmetic (a Simplex over exact rationals with δ/ε perturbations, a
difference-logic cycle check and a same-form bound check), congruence closure, arrays,
strings, quantifier instantiation, a nonlinear heuristic, and exact IEEE-754 floating point.

Layout:

- `src/num.rs` — arbitrary-precision integers and rationals (arithmetic by `num-bigint` and
  `num-rational`).
- `src/ast` — sorts, terms and model values; the order on terms; floating-point values.
- `src/parser.rs` — the SMT-LIB lexer and parser.
- `src/meaning.rs` — the value of Boolean and integer terms, which simplification keeps.
- `src/tactic.rs` — simplification and equation solving.
- `src/sat` — the CDCL solver.
- `src/theory` — the theory solvers.
- `src/lib.rs` — `Rz3Solver`: the assertion stack, the encoding and the check loop.
- `src/render.rs` — running a script and writing answers, models and values.
- `src/parity.rs` — comparing answers with a reference solver's output.
- `src/proofs` — the record of theory lemmas and DRAT lines.
- `app/` — the command-line program (file and process I/O).
- `tests/` — tests of the library.
