# stabilizer_qec

A stabilizer simulator and decoders for rotated and XZZX surface codes, with
their behaviour stated as Verus contracts and proved.

## Layout

- `src/` — the verified library.
  - `pauli.rs`, `tableau.rs`, `simulator.rs`: the symplectic tableau, Clifford
    gates and Pauli measurements, with the laws they keep (validity of the
    tableau, involutions, repeatable measurements).
  - `bits.rs`, `logical_check.rs`: Paulis as bit masks, GF(2) row reduction,
    and the check whether a residual is a logical operator and of which class.
  - `lattice.rs`, `surface_code.rs`: the two codes, their neighbourhoods,
    extraction circuits and spacetime decoding graphs.
  - `decoder.rs`, `blossom.rs`: greedy, Union-Find and matching decoders, and
    an exact blossom matching with fixed memory and work ceilings.
  - `circuit_model.rs`, `shot.rs`: the detector error model derived from the
    extraction circuit by Pauli-frame propagation, the exhaustive single-fault
    check, and the bookkeeping of one circuit-level shot.
  - `circuit_shot.rs`: one circuit-level shot from noise drawn beforehand —
    the round program run on a Pauli frame (and, for the rotated code, on a
    seeded stabilizer simulator), decoded and classified.
  - `session.rs`, `session_decode.rs`: an interactive decoding session — errors
    per round, the syndrome they produce, and its decoding.
- `tests/` — tests run against the compiled library.
- `app/` — Python bindings, the C ABI for the browser front end, and the
  Monte Carlo drivers, whose sampling uses floating point; they draw the noise
  and hand it to the library.
