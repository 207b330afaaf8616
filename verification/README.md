# dtrexp

DTRExp ("DTR Expression") is a compact string expression for date-time
ranges and recurrence, evaluated by coverage: is this instant inside the set?

```
T0900:1800 E1:5          Mon-Fri, 09:00-18:00
E7#-1 M4                 last Sunday of April, every year
20200106/10D             every 10 days from 2020-01-06
M!7                      every month except July
```

The library parses and statically validates an expression, and answers
coverage queries for an instant (milliseconds since the Unix epoch) in a time
zone: UTC, a zone decoded from TZif data, or a host-supplied offset callback.
It is written in Verus; every function in `src/` is verified against its
contract, with no trusted items.

## Layout

- `src/lib.rs`: `parse`, `validate` and `Dtrexp` (`warnings`, `covers`,
  `covers_in`), specified over `spec_parse` and the union of the branches'
  coverage.
- `src/grammar.rs`: the grammar as a specification over bytes; `src/parser.rs`
  parses exactly what it describes.
- `src/validate.rs`: the static checks (errors) and the unsatisfiability
  lint (warnings).
- `src/eval.rs`: the coverage semantics (`spec_expr_covers`) and the
  evaluator.
- `src/civil.rs`: proleptic Gregorian arithmetic, with its round-trip laws.
- `src/tz.rs`: transition-table zones, TZif decoding and `compatible`
  wall-clock resolution.
- `src/laws.rs`: properties of the library as a whole (lint soundness, the
  exactness of the cadence occurrence scan, the zone round trip, ...).
- `app/`: reading zone data from the system database, and the error types
  with `Display` and `std::error::Error`.
