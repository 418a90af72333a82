# trend_mm

A market-signal service for a futures contract. It keeps the order book of the
exchange, turns updates and trades into seventeen factors, predicts the move of
the mid price 10, 25 and 50 ms ahead, compares each prediction with what came
of it, and retrains its linear models from those samples.

- `src/` is the library: books, flows, factors, the engine, labels, metrics,
  ridge fits, promotion rules, schedules and sessions, with contracts that
  Verus proves. It computes over any `Real`; `Fixed` is an exact one.
  `exact.rs` holds what is proved of exact numbers, `algebra.rs` what follows
  where arithmetic obeys the laws of a field.
- `app/` is the service around it: the exchange connection, SQLite, the web
  interface, and `f64` as the number type.
- `tests/` run the library with `f64` and with exact numbers.

Exponentials are not part of `Real`, because `std` does not promise the same
result every time: level decays and the share of a new value in the moving
mean are handed to the library.
