# mvitop

A keyboard-driven terminal system monitor for Apple Silicon Macs, built
around a library whose logic is proved with Verus.

- `src/` is the verified library: how foreground user jobs are formed and
  accounted between samples, the job table's filter and order, every key's
  effect on the view, the screen layout and table columns, the chart
  columns, the per-core CPU tick deltas, the memory figures, the decoding of
  `sysctl` buffers and of the `powermetrics` property list, and the compact
  text for sizes and durations. Each public function states its result in
  its contract; the `lemma_*` proof functions state properties that span
  several calls.
- `app/` is the program: the terminal and event loop, the collector
  threads, the macOS interfaces (Mach, libproc, sysctl, IOKit), the
  floating-point figures and the drawing.
- `tests/` runs the library on concrete values.
