# ta

Technical-analysis indicators and batch statistics over price series, written in Rust and
verified with Verus.

- `src/` is the library.  It computes over any number format (`number::Number`) and looks at
  time as nanoseconds (`time::Timestamp`).  Contracts state which operations are carried out,
  in which order; laws over better-behaved formats are proof functions beside them.
  - `indicators/`: `Maximum`, `MaxDrawdown`, `BollingerBands` and `RelativeStrengthIndex`, the
    window of points that they keep, and the queue with an aggregate behind the drawdown
    (`swings.rs` says what that aggregate tells).
  - `simd/`: sums, variance, exponential moving average, rate of change, rolling mean and
    deviation over slices, four lanes at a time.
  - `number.rs`, `integers.rs`, `lanes.rs`: number formats, whole numbers as one of them, and
    four numbers side by side.
  - `time.rs`: points in time, spans of time, and the buckets within which a point replaces
    the one before it.
  - `traits.rs`: what indicators have in common.
- `app/` puts double-precision numbers, vector registers, calendar times, `Display` and
  stored states around the library.
- `tests/` runs both whole numbers and double-precision numbers through it.

One item is taken on trust: the conversion of a point in time to nanoseconds, for which
`time.rs` calls `chrono`.
