# rust_decimal

Fixed-precision decimal numbers — a sign, a 96-bit mantissa and a scale of at most 28 —
with their arithmetic, their plain and scientific text forms, and a set of property
checks over them. The library is written in Verus: every function carries a contract
over a mathematical model of the decimal (`DecimalModel`, the rational `±m / 10^s`), and
Verus proves each body against its contract, including that no call panics or overflows.

Layout:

- `src/arith.rs` — powers of ten and round-half-to-even, in spec and exec form.
- `src/model.rs` — the model of a decimal and of rounding a result into range.
- `src/decimal.rs` — the `Decimal` type: construction, comparison, `is_integer`, `round_dp`.
- `src/ops.rs`, `src/mul.rs`, `src/div.rs` — addition, subtraction, `abs_sub`,
  multiplication, negation and division.
- `src/maths.rs` — the natural logarithm, and the proof that every positive decimal has one.
- `src/bounds.rs` — bounds on rounded results used by those proofs.
- `src/digits.rs`, `src/text.rs` — digits, the plain and scientific forms and their parsers.
- `src/parse.rs` — `from_str`: the plain form with `_` separators, rounding off fraction
  digits that do not fit.
- `src/etna.rs` — the property checks (`property_*`), each proved to pass on every input
  in its domain.
- `src/report.rs` — what a run reports: counters, verdicts of the frozen witness inputs,
  and the escaped one-line JSON record.
- `app/main.rs` — a command-line runner that drives the property checks through the
  proptest, quickcheck, crabcheck and hegel frameworks and prints JSON.
- `tests/` — witness tests for the properties and behaviour tests for the library.
