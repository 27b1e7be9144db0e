# acir_checker

A formal verifier for Noir programs. A Noir program is compiled to an ACIR
circuit; the verification asserts in it (`verify_assert`, `verify_assume`,
`verify_print`, calls of unconstrained functions) are kept as calls. This
library translates the circuit into SMT-LIB constraints, one verification
condition per asserted expression, and turns the solver's answers into
outcomes: **Verified** (unsatisfiable), **Falsified** with a model
(satisfiable), or **Unknown**.

Three encodings are offered: finite-field terms for cvc5's Gröbner-basis
solver (`ff-gb`, the default) or its split solver (`ff-split`), and integers
modulo the BN254 prime (`int`).

## Layout

- `src/` — the library, verified with Verus.
  - `circuit.rs` — the ACIR circuits the encoder reads.
  - `field.rs` — field elements of BN254, their values and their text.
  - `text.rs` — decimal text and the names of SMT constants.
  - `smt.rs` — SMT terms and commands with their SMT-LIB text.
  - `encoding.rs` — what the encoder emits for each part of a circuit,
    stated as functions from state to state.
  - `encoder.rs` — the encoder, proved to emit exactly that.
  - `check.rs` — encoding settings, outcomes, and the session that asks the
    solver about each verification condition in turn.
  - `invariants.rs`, `declarations.rs` — what every state of the encoding
    keeps: conditions numbered in order, each name declared once.
  - `ranges.rs` — the meaning of the constraints that bound a memory index.
  - `conditions.rs` — one verification condition per `verify_assert` input,
    in opcode order.
  - `stops.rs` — where strict mode refuses a circuit, where relaxed mode
    skips, and where a broken circuit stops the encoding.
  - `model.rs` — reading the values of a solver model.
  - `source.rs` — finding a condition's text in the program source.
  - `report.rs` — what is shown to the user, and in which colour.
- `tests/` — tests of the library; `test_falsified.rs` checks programs whose
  conditions can be falsified, exhibiting a model for each condition.
- `app/` — the `formal-verify` command: Noir compilation, cvc5 through
  rsmt2, terminal output.
