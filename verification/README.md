# ai_pow_zk

Constraint systems, trace builders and proof policies for the
matrix-multiplication proof-of-work circuit, verified with Verus.

- `src/field.rs`, `src/prime.rs`: the Goldilocks field as canonical `u64`
  representatives, and the proof that its order is prime.
- `src/air.rs`, `src/bus.rs`, `src/matrix.rs`, `src/bits.rs`: polynomials over
  the cells of a trace, constraints, lookup interactions, traces and bit
  decompositions.
- `src/chips/`: the chips. Each chip's emitter states exactly which windows meet
  the constraints it emits; `laws.rs` beside it states what every trace that
  meets them computes, and that the built traces meet them.
- `src/composite_*.rs`: the column layout, the composite system with and without
  a fixed program, its buses, its public inputs and the verdict on a proof of
  work.
- `src/circuit.rs`: proof profiles and the policy that they have to meet.
- `app/`: hands the systems to the proof system and carries the types that
  travel.
- `tests/`: the library on concrete traces, some of them proved and verified.
