# chanlun_tdx

Chan-theory structure analysis of a bar series, verified with Verus, plus the
glue that exposes it as a TDX formula plug-in.

- `src/chan/` — the analysis pipeline: relation of two price ranges, K-line
  merging and fractal marks, strokes, pivots, feature sequences, segments,
  MACD areas and buy/sell points. Prices are `i64` keys that preserve the
  order of the real prices; the MACD histogram is given in hundredths.
- `src/outputs.rs` — the twenty per-bar output rows and `compute_all`, with
  lemmas on the structure of the whole pipeline.
- `src/mark.rs` — the row numbers.
- `app/` — the plug-in: reading the terminal's `f32` series, the MACD itself
  (floating point), price-key conversion, the cache and the exported entry
  points.
- `tests/` — stage-by-stage scenarios and two whole-pipeline series.
