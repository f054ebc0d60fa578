# light-program-profiler

Compute-unit and heap profiling for Solana programs, written in Verus.

- `src/mollusk.rs`: the profiling state that the `sol_log_compute_units_start`
  / `sol_log_compute_units_end` syscalls drive (open sections, closed sections,
  sequence numbers), the net figures of nested sections, the extraction of
  results, and the categorized README rendered from benchmark results.
- `src/report.rs`: `CuBenchmark`, which collects per-instruction entries (from
  entries or from runtime log lines) and custom tables and renders a markdown
  report with a table of contents.
- `src/text.rs`: the character-level model (decimal numbers, padding,
  searching, trimming, splitting, lines, joining, ordering of strings) that the
  contracts are stated in, with the verified helpers that compute it.
- `app/`: the syscall registration on a Mollusk instance, the thread-local
  profiling state, and the writing of reports to disk.
