# sim_estate

Host-free estate operations, verified with Verus: portable records, a
hash-linked operation book over a compare-and-swap table, a deterministic
model provider, and the guarded organ that plans, applies and reconciles
operations under single-use approvals and target leases.

## Layout

- `src/` — the verified library.
  - `records` — portable records and validated symbols.
  - `text`, `codec`, `canon`, `digest` — character and byte helpers, the
    length-framed canonical encodings that content keys are taken over,
    and SHA-256 (through `sha2`).
  - `table` — the compare-and-swap table port and an in-memory table.
  - `book` — content-addressed envelopes, run heads, projections,
    approvals and leases, with the laws that relate them.
  - `provider`, `model` — the provider contract, its conformance
    scenario, and the scripted model provider.
  - `order` — ordering targets by id.
  - `organ` — plan, approval, apply, lease renewal and reconciliation.
  - `callback` — splitting, canonicalising (through `serde_json`) and
    checking hash-chained callback evidence.
  - `rules` — the repository contract over files already read.
  - `support` — symbols from text, opaque target names, digests of text,
    a pass-through effect gate, a fixed clock, bounded process output.
- `tests/` — tests of the library.
- `app/` — host plumbing: JSON reading of callback lines, file and git
  digests, and the repository contract runner that walks the tree.
