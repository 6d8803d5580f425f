# validresult

The verified core of the ValidResult frontend (a Leptos single-page app that
shows model metrics and charts).

- `src/` — the library, verified with Verus: text handling (`text`, `number`,
  `order`), the metrics table and cookie rows (`loader`, `table`,
  `add_metrics`), the benchmark and precision/recall readers (`bench_hist`,
  `charts_route`), the sort buttons (`sort_button`), chart selection
  (`chart`), the chat panel (`agent`) and the backend addresses (`backend`).
- `app/` — the Leptos components, the HTTP requests and the chart geometry,
  which works in floating point.
- `tests/` — tests of the library on concrete inputs.
