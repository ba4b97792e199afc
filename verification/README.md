# chanlun_lean_lib

A verified library of Chan-theory chart structure: candle inclusion merging,
fractals, strokes, segments (three levels), pivot zones, second buy/sell markers
and the track-band ("guidao") indicators built on them. Prices are integer ticks.

Every function in `src/` carries a `requires`/`ensures` contract proved with Verus;
the laws that span several functions are public proof functions (`lemma_*`).

Layout:

- `src/types.rs`: candles, fractals, strokes, case switches, statistics.
- `src/candles.rs`: inclusion merging, fractal detection, ordering and filtering.
- `src/strokes.rs`: the stroke chain and its four validation cases.
- `src/segments.rs`: segments, big segments and superior segments.
- `src/zhongshu.rs`: pivot zones at every level.
- `src/markers.rs`: second buy/sell markers.
- `src/guidao/`: turn signals, bands, tracking and the plus-one markers.
- `src/chart.rs`: the per-bar series that charting front ends draw.
- `src/pipeline.rs`: all stages computed from one bar series.
- `tests/`: concrete scenarios and one test per law.
- `app/`: the terminal plug-in exports (floating point, caches, FFI), unverified.
