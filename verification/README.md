# aqueduct

A node-based dataflow engine. A graph of typed nodes and edges is validated
against the registered node types, ordered, compiled into a plan and a store of
pin values, and then evaluated tick by tick. Running graphs can be patched:
property changes are applied in place, structural changes recompile the graph
and carry over the values of the pins they do not affect. Client sessions
subscribe to pins and are sent the values that changed.

## Layout

- `src/` is the library, verified with Verus. The contracts speak over the views
  of the data types; the laws that relate several operations are public proof
  functions (`lemma_*`). Node types implement `NodeFactory` and `NodeEvaluator`;
  what a factory may make and report and what an evaluator may answer are stated
  through the traits' `creates`, `defines`, `answers` and `patches`, which the
  built-in node types define and other node types may leave open. Compiling
  states that each node runs an evaluator its type's factory may make for the
  node's properties; ticking and property changes state what is handed to each
  evaluator and what is done with its answer.
  - `graph`: evaluation order, cycle detection, downstream closure, validation.
  - `compiler`: compiled graphs, the tick step, asynchronous jobs.
  - `patch`: graph mutations and live patching.
  - `pin_store`, `session`, `registry`, `runtime`, `dispatcher`: the value store,
    client sessions, node types, the live graph and the request handling.
  - `nodes`: the built-in node types that compute on integers, booleans and
    strings, and their registration.
- `app/` is the server around the library: the WebSocket transport, the tick
  and session loops, the serde forms of the protocol, and the built-in node types
  that compute on floating-point numbers.
- `tests/` holds the tests of the library.

Floating-point values travel through the library as their IEEE-754 bit
patterns.
