# evo

A verified library for an activity ledger: it turns what a person's
desktop witnessed (window focus, pages, documents, saves, input buckets)
into attention intervals and purpose-level works, and decides what
entering a work's "pod" does to the rest of the desktop.

The code in `src/` is written in Verus; its public functions state in
their contracts what they return, over mathematical models of their inputs
and results, and Verus proves the code meets them. The few calls into std
and `uuid` that Verus cannot read are behind small trusted items. Their
contracts state what the outside documentation promises; where that takes
pages (Unicode tables, lossy decoding) or depends on the clock or chance,
the result is only named, or only what holds of every outcome is stated.

## Layout

- `src/text.rs`, `src/chars.rs`, `src/sorting.rs`, `src/sums.rs` — text,
  splitting, ordering and summing, with their laws.
- `src/observation/` — the observation language: schemas, facts and
  evidence, provenance, validation, canonicalization and integrity.
- `src/ledger/` — page identity, the observation log format, input fusion,
  intervals, works and the grouping hypotheses, search, production
  attribution and the regression gates.
- `src/pods/` — launch policies, wrapper bundle texts, containment plans,
  leases and gestures.
- `src/replay/` — replaying a corpus of observations in canonical order.
- `tests/` — scenario tests and tests of each contract.
- `app/` — what cannot be verified: the SQLite ledger, reading logs and
  processes, serde copies of the records, the floating-point geometry, and
  the pod host loop that performs what the pod runtime decides.
