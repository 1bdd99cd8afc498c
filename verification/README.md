# ddl

Parts of DDL, a compiler from dataflow descriptions to synthesizable
Verilog-2005, as a Verus library: the intermediate representation, the
building blocks a body is lowered with, the modules the compiler writes on
its own (combinators, boundary adapters, clock-domain crossings), and the
checks and textual forms -- each function stated by a contract and proved.
The front end (lexer, parser, symbol table) is not here: a body arrives as
the values of `src/syntax.rs`, already parsed and with its types resolved.
From those, the library schedules a process body into states, declares a
process's interface, and reads what a graph instantiates; the lowering of
each statement into values and registers is not here.

## Layout

- `src/text.rs`, `src/sort.rs` -- decimal numerals and name order.
- `src/ty.rs` -- types, their widths and spellings, literal ranges, cast hints.
- `src/diag.rs` -- the source map (files, lines, columns) and diagnostics.
- `src/ir.rs`, `src/env.rs` -- the module graph and the scope of a body.
- `src/lowerer.rs`, `src/lower_path.rs`, `src/lower_mem.rs`,
  `src/lower_extend.rs` -- building a body: the salt protocol of a pipe,
  the branch path, memory write ports and the joins that reconcile them.
- `src/syntax.rs` -- expressions, statements, parameters and graph bodies.
- `src/ir_fsm.rs` -- process bodies as state machines: the barrier and read
  walks, scheduling a body into states (every jump lands on a state, each
  state is reached from state 0, some state waits), what each state defines
  and reads, and which values cross a clock edge.
- `src/process.rs` -- a process's interface: clock and reset, then a pipe's
  three ports per `buffer` parameter and a constant per plain one.
- `src/ir_pipe.rs`, `src/ir_match.rs` -- pieces of sequence lowering (its
  need for a pipe in and a pipe out, stage liveness, stage crossings) and the
  planning of a `match`.
- `src/ir_comb.rs`, `src/ir_adapt.rs`, `src/ir_cdc_lib.rs` -- the generated
  modules: combinators, boundary adapters, clock-domain crossings.
- `src/ir_graph.rs`, `src/ir_graph_cycles.rs`, `src/ir_export.rs` --
  a graph's ports, its checks (endpoints, wires, instantiation cycles and
  what each graph instantiates) and what an output holds.
- `src/render.rs`, `src/dot.rs`, `src/fmt.rs`, `src/driver.rs` -- the
  textual forms: the module dump, Graphviz, source hygiene.
- `app/` -- what stays outside the proofs: writing diagnostics to standard
  error and taking the raw addresses tokens are placed by.
- `tests/` -- the tests, run against the compiled library.
