# chronoloom

Set algebra over time points and half-open time intervals, written in Verus:
every function of the library carries a contract that the verifier proves.

Intervals are half-open, `[start, end)`, and never empty. Two shapes of event
(`TimePointEvent`, `TimeIntervalEvent`) and two sequences build on them:

- `TimePointSequence` keeps point events in time order, stable within an
  instant. Its contracts describe each operation over the sequence of events:
  where an insertion lands, which run of events a lookup or removal returns,
  which event a neighbour query picks.
- `TimeIntervalSequence` keeps the spans during which one state was active in
  normalized form (sorted, disjoint, never touching). Its contracts describe
  each operation by the instants it covers; since a normalized sequence is
  determined by its coverage, this pins every result. It also keeps a running
  total of the time it covers, updated by every change.

Each sequence carries its well-formedness as a type invariant, so callers
never have to re-establish it: every value, a clone included, satisfies it.

Layout:

- `src/primitives/` — the events, the interval error and its message.
- `src/sequences/` — the two sequences, the stable sort they rest on, and the
  laws relating their operations (public proof functions named `law_*`).
- `src/algebra.rs` — the intersection of two bare `(start, end)` pairs.
- `tests/` — the behaviour on concrete values.
- `app/` — the Python bindings (pyo3), outside verification.
