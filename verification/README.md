# dataset_report

Comparison of a DWT (last-out-first-in folding stack) volatility model with
EWMA VaR forecasts, judged by Diebold–Mariano and generalised DM tests.

- `src/` — the verified library (Verus):
  - `dwt.rs`: turning points of a price path, the wiping-out folding stack,
    the online tracker and the stack summary; `dwt/laws.rs` proves the shape
    invariants and the other laws of the rule;
  - `analysis_core.rs`: regime labels from the wiping-out flags;
  - `dm_test.rs`: block starts and resampling of the moving-block bootstrap.
  Prices are integer ticks, so every comparison of the folding rule is exact.
- `app/` — the program around it: loading bars, the floating-point VaR models
  and test statistics, the report and the charts.
- `tests/` — tests of the library.
