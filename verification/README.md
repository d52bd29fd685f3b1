# calcite_core

The verified core of an engine for computational CSS: stylesheets whose custom
properties, recomputed tick by tick, describe a machine.

* `types`, `copies`, `number` hold the expression trees of a stylesheet. A literal is the bit
  pattern of a 64-bit float; the few questions that are asked of it (is it whole, what
  integer is it) are answered on the bits.
* `state`, `load`, `delta`, `snapshot`, `screen` hold the machine: variables, memory
  with its packed cells and window, input gates, recorded differences, snapshots, and
  screens rendered from memory.
* `pattern` recognises the shapes that can be run faster than they are written:
  dispatch tables, broadcast writes and loops. `pattern::rep_applier` applies all
  iterations of a loop at once.
* `script`, `script_eval`, `script_spec` hold the watches by which a host observes and
  drives a running machine, and the text in which they are written.

Every function states what it returns or changes over mathematical values: `view` of a
type gives its value (`State` as `StateModel`, `Expr` as `ExprModel`, and so on). What
holds between functions stands in proof functions named `law_...`, in
`memory_laws`, `script_laws`, `written_numbers`, `pattern::rep_applier::laws`,
`pattern::loop_descriptor::renaming` and beside the functions themselves.

`fx` wraps the hash maps of `rustc-hash`. Together with the few functions of `std` that
have no specification, its contracts are what the proofs take on trust.

`app/` is the host's side: it writes the files that watches ask for, logs, and words
error messages.
