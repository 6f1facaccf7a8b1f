# fixtrace

Replay-verified minimal repair traces for local Rust/Cargo debugging sessions.

A session records the steps of a debugging session (shell commands, file patches,
environment changes, directory changes) as ordered actions. Candidate subsets of those
actions are replayed from fresh copies of an immutable baseline, several times each, and a
user-given oracle command decides whether a candidate repairs the project. The result is a
dependency-constrained 1-minimal sufficient repair trace, with ablation evidence for every
action that it keeps.

## Layout

- `src/` — the library, verified with Verus:
  - `domain/` — actions, snapshots and their differences, trials, session statuses;
  - `minimize/` — dependency inference and closures, delta debugging, the trial cache and
    the minimization engine that asks for trials and assembles the report;
  - `replay/` — replay state, trial planning and outcome classification;
  - `recorder.rs`, `patch.rs` — parsing of recorded lines and checkpoint patches;
  - `sandbox.rs`, `paths.rs` — project-relative paths that cannot escape the project;
  - `history/` — redaction of secrets, externalized output, state paths;
  - `agent/`, `llm/`, `config.rs`, `service.rs` — diagnosis checks, agent limits, token
    accounting, provider endpoints, configuration checks and service helpers;
  - `digest.rs`, `shell.rs`, `text.rs` and friends — hashing, shell word splitting and
    text utilities.
- `app/` — the `fixtrace` command: file system and process work, SQLite history, the HTTP
  provider, the controlled shell and the agent loop, all driving the library.
- `tests/` — tests of the library's public functions.

## Scope

The command-line workflow is complete: record, replay, minimize, analyze, history and
configuration. There is no long-running application service or request/response protocol
server in this crate; the helpers such a service needs (pagination, artifact ids,
environment-name checks, session paths) are in `src/service.rs` and `src/history/`.
