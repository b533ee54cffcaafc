# dogmos

The verified core of the Dogmos atmospherics engine, written in Verus.

- `src/` is the library. Verus proves every function in it against its contract, except
  four small wrappers around standard-library calls (`Vec::capacity`,
  `Vec::try_reserve_exact`, `sort_unstable` on integer pairs, and collecting `char`s into a
  `String`), marked `#[verifier::external_body]`, whose contracts are taken on trust.
  - `slot_index`, `transaction`, `topology`, `frontier`, `versioned`: the engine's
    generation-checked storage, candidate sets, packed turf adjacency, frontier uploads and
    atomically published records.
  - `diffusion`, `conduction`, `component`: graph validation and packed adjacency, canonical
    conduction edges, component topology rows.
  - `world`, `metadata`, `reactions`, `stage_cursor`: the world's vocabulary, its error
    mappings, and the checks a stage chunk request must pass.
  - `lifecycle`: admission of mixture and turf lifecycle batches against the slot tables
    and the world's memory budget.
  - `adjacency`: turf adjacency and firelock batches, checked against the turf table and
    applied to the packed topology in order.
  - `continuations`, `events`: the generation-checked table of pending reaction
    continuations and the bounded queue of events waiting for game code.
  - `bindings`, `byond`, `text`: the canonical form of the generated DM bindings, 16-bit word
    encodings, hexadecimal text and process-metric checks.
- `tests/` exercises the library with concrete values.
- `app/` holds what stays outside the proofs: panic containment at the foreign boundary, the
  bindings file on disk, and host-facing error reports.

Not carried over: the world's floating-point simulation (mixture arithmetic, diffusion and
heat steps, equalization, excited groups, reactions), the callback queue, the production
protocol encoders and decoders, and the gas and reaction metadata registries. Their logic
rests on floating-point values, or on crates that are not available to this build, so it is
neither verified here nor kept in `app/`; the integer bookkeeping around it (lifecycle and
adjacency batches, stage admission, continuations, the event queue, record-count checks) is
in `src/`.
