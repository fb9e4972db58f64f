# gkr

A verified library for the GKR interactive proof (made non-interactive with a
Keccak-256 transcript) over prime fields of at most 64 bits, with the pieces it
is built from: multilinear and univariate polynomials, the sumcheck protocol,
layered arithmetic circuits and their wiring polynomials, gate-evaluation
extensions, and the compilation of R1CS constraints into circuits.

Layout:

- `src/` — the library, written in Verus: every function carries a contract
  and is proved against it. The laws of the library (what the operations do
  to values, sumcheck completeness, what an R1CS circuit checks, ...) are
  public proof functions next to the code they are about.
- `tests/` — tests on concrete values.
- `app/` — the command-line tool around circom: file handling, running the
  circom compiler and witness generation.
