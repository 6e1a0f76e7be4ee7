# vyges_buffer_insert

STA-driven buffer insertion, verified with Verus: a netlist whose driver transitions exceed a
limit is relieved by inserting buffers that take over half of a heavy net's sinks, each trial
scored by a static timer and kept only when the worst transition drops and setup holds.

Layout:

- `src/` — the verified library
  - `text.rs`: character-sequence helpers (trim, line splitting, number grammars)
  - `job.rs`: the `.bufins` keys (`parse_cfg`) and driver-name globs (`glob_match`)
  - `order.rs`: the order of string pairs and a sort proved to give `Seq::sort_by`
  - `netlist.rs`: instances, library pins and timing snapshots as plain values
  - `engine.rs`: the rules of a round (worst transition, candidate net, its sinks, the split)
  - `optimize.rs`: the rounds, as a state machine and as `optimize` with the timer passed in
  - `emit.rs`: the buffered netlist as structural Verilog
  - `cli.rs`: the command line
- `app/` — the program: file loading, the `vyges-sta-si` timer and parsers, reports
- `tests/` — tests of the library

Times inside the library are whole zeptoseconds (10^-21 s); the program converts the timer's
nanosecond figures.
