# microde

Microde builds applications out of independently defined modules with an
explicit lifecycle: modules are installed, their relationship slots are bound
to the ports that other modules provide, and the application then
initializes and sets them up in dependency-first order, runs them, and tears
them down, shuts them down and cleans them up in reverse order. Failures are
ranked and returned in the execution result once cleanup is over.

## Layout

- `src/` is the verified library. Every decision of the runtime stands here
  with its contract:
  - `registry.rs`: the composition of installed modules, bindings, and
    wiring (missing bindings, dependency cycles, provider resolution and the
    lifecycle order of the modules);
  - `dependency_graph.rs`, `graph_order.rs`: the dependency graph and its
    deterministic, dependency-first depth-first order;
  - `lifecycle_order.rs`: the stable arrangement of the modules by that
    order;
  - `lifecycle.rs`: the lifecycle state machine that hands out each step,
    tracks every module's stage, and turns the failures into the final
    result; the stop latch;
  - `lifecycle_laws.rs`: what holds of whole runs of that state machine:
    which phases run given failures and stop requests, the forward phases
    in lifecycle order, each backward phase visiting exactly the modules it
    concerns from the last one down, and the end of execution;
  - `relationship.rs`, `lifecycle_context.rs`: ports, slots, providers, and
    the contexts through which modules read their resolved relationships;
  - `error_record.rs`: the ranking of failures by priority;
  - `composition.rs`, `types.rs`, `error.rs`, `stop_request.rs`,
    `execution_result.rs`, `text.rs`: the vocabulary.
- `app/` is the asynchronous runtime around the library: the module traits,
  `MicrodeApplication`, the thread pool, the stop signal and the completion
  event. It performs the steps that the library hands out and reports their
  outcomes back.
- `tests/` exercises the library, including the lifecycle driven the way the
  runtime drives it.
