# pm4wasm

A process-mining library whose logic is verified with Verus: event logs,
their filters and writers, process discovery (directly-follows graphs,
alpha and alpha+ miners, inductive miner, declare and log-skeleton rules,
transition systems, batches), Petri nets (reduction, soundness), process
trees, conformance checking (token replay, A* alignments, ETConformance
precision counts, footprints), and PNML, PTML, BPMN and DOT conversion.

Layout:

- `src/` — the verified library. Every function carries a contract that
  Verus proves; the modules' public proof functions state the library's
  laws (for example that an alignment's log moves spell the trace, that
  replay conserves tokens, that reading a PTML document's elements gives
  the tree back, that reduction is idempotent).
- `tests/` — tests of the library on concrete inputs.
- `app/` — what the library leaves to ordinary Rust: JSON with serde, and
  the floating-point scores (fitness, precision, declare and log-skeleton
  thresholds) computed from the library's exact counts. XML is read in the
  library itself (`src/xml.rs`), through quick_xml behind three trusted
  wrappers whose results are named.

Scope: the library's process models are process trees and Petri nets.
POWL models (partial orders over sub-models) are not covered: the model
type, its parser and the algorithms over it (POWL simplification,
footprints, diff walking, and conversion to and from BPMN, YAWL, Petri
nets and process trees) are left out. Model comparison (`diff`) takes the
two models' footprints and structural changes instead.
