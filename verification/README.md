# tt — a task tracker over a dependency DAG

`tt` keeps tasks whose dependencies form a directed acyclic graph. A task is
pending, in progress, completed, blocked or cancelled; at most one task is in
progress at a time; a focus task narrows listings and "what next" to the tasks
it transitively needs. Tasks also carry a manual order and artifacts (files
logged against them). The same operations are offered on the command line
and as MCP tools over JSON-RPC.

## Layout

- `src/` — the library, verified with Verus.
  - `models`, `error`, `text`: the data model, errors with their codes and
    messages, and small string helpers.
  - `graph`, `target`, `dag`: cycle detection, cycle paths, transitive
    prerequisites, topological order with manual-order tie-breaks, the
    focus subgraph with its "next task" rule, and the proof that acyclic
    edges can always be followed.
  - `state`: the status state machine and the guards of each transition.
  - `ordering`: manual orders as order keys (integers ordered as the
    floating-point orders they stand for), placements, and reindexing.
  - `store`: the task store and every operation on it, each with a contract
    over the store's rows, edges, artifacts and focus; the store's invariant
    (unique increasing ids, edges between existing tasks, no cycle, at most
    one task in progress) is kept by every operation.
  - `tools`, `transport`: the MCP tools and the wire rules (routing, error
    codes, request lines).
  - `cli`, `install`, `chart`: the command vocabulary and its routing, the
    install plan, and the Mermaid rendering of the graph.
  - `laws`: properties that relate several operations, among them that
    every listing puts prerequisites before their dependents.
- `tests/` — tests of the library.
- `app/` — the program: command line, SQLite persistence, the MCP server loop,
  configuration files, TOML dump/restore, and the floating-point arithmetic of
  manual orders.
