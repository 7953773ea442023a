# trail

A coverage scheduler with memory. It hands agents the next folder to cover for a
named task, leases it so that parallel agents never collide, records the visit,
and orders future sweeps from the history that accumulates under the task's name.

- **One pass per sweep.** A sweep freezes a priority per folder of the snapshot
  and is drained: every folder is handed out until it is done or skipped.
- **Leases.** A claimed folder is held for a time to live; a lease that ran out
  returns to the pool, so a sweep completes only when every folder is covered.
- **Memory.** Visits and reported outcomes are kept per task name, and decide the
  order of later sweeps by one of three strategies.

## Layout

| Where | What |
|-------|------|
| `src/state.rs` | the state and what each command does to it, as mathematics |
| `src/store.rs` | the store, proved to compute just that |
| `src/command.rs` | whole commands, their answers and exit codes |
| `src/scheduler.rs` | scores, up to the arithmetic on reals |
| `src/walk.rs`, `src/overrides.rs` | paths, the census of a scan, configured globs |
| `src/validity.rs` | every command keeps the state valid |
| `src/laws.rs`, `src/coverage.rs`, `src/memory.rs` | what holds of the commands as a whole |
| `src/agents.rs` | several agents on one sweep, in any order |
| `src/history.rs` | runs of commands |
| `app/` | the program: SQLite, the walk of the tree, git, settings, the command line and the language bindings |

A command reads the rows that it may touch, is carried out on them by the library,
and the rows that changed are written back, all in one transaction. Scores are
real numbers: the library says which numbers are combined and how, and the program
computes them.
