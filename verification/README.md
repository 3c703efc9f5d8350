# bycl_sim

A cycle-counting simulator of a small RV32I core (the bycl CPU) with split,
set-associative L1 caches and memory-mapped ports, written in Verus.

- `src/` is the verified library. `semantics.rs` gives one step of the core
  as a function on `CoreModel`; `exec.rs` runs it (`Core::execute_one`,
  `Core::fetch`, `Core::execute`) and decides whether a step can run
  (`Core::step_fault`). `decode.rs` reads instruction fields, `op.rs` opcode
  classes, `mem.rs` memory and caches with their model, `io.rs` the ports and
  the column display, `schematic.rs` the layout of the L1I schematic.
- `app/` is the command-line simulator: argument parsing, firmware loading,
  the channels between the core and its devices, the terminal display and the
  display window.
- `tests/` runs the library on concrete programs and values.
