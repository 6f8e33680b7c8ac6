# credsync

An offline-first synchronisation engine for apps on unreliable networks: the server's rules and
the deterministic simulator, written in Verus.

- `src/` is the library. Every function states what it returns or changes, and Verus proves it.
- `tests/` runs the library: tokens that must be refused, batches under a budget,
  bootstraps that are interrupted, and whole simulated runs with a small client on each device.
- `app/` is the reference server around it (axum and Postgres), the loop that forwards commands
  to a host application, and the loop that runs the simulator over a client engine.

## What is proved

- A pull never leaves a hole: a device that walks the log meets the committed changes of its scope
  in order, each once, and ends up holding the rows the server's digest is over (`walk_laws`).
- A bootstrap can be interrupted and written into: what a device has is right as far as its cursor
  goes after every page, and complete after the last (`bootstrap_laws`).
- A command whose body can be encoded is answered once. A replay gets the recorded outcome whatever
  such commands came in between, a reused id with another body is refused and leaves the record as
  it is, and a server under load is silent about what it did not look at (`server_laws`, `dedupe`,
  `host`).
- A token grants something only under the pinned algorithm, only until it expires, only the scopes
  it claims, and nothing where it makes a claim twice (`auth`, `request`).
- The observer of a run is silent exactly when its claims hold, and complains once for each command
  that breaks them (`claim_laws`).
- Two runs of one seed that are driven in the same way are the same run (`run_laws`). A run settles
  before it is judged and covers the time of all its steps, and a batch ends with its first failure
  (`drive`).
- A world at rest has no faults, and a device that died with its write on disk restarts before
  anything else is asked of it (`world_laws`).

## What is taken on trust

`auth` calls `jsonwebtoken` to decode tokens and `serde_json` to read their claims, behind six
small wrappers whose contracts are believed. `text` believes that `String::push` appends.

The canonical encoding, the hashes over it and the grammar of names are chosen by whoever uses the
library, through the traits `Codec` and `ScopeRule`. Nothing is promised of an implementation
beyond what a function asks for: that the same value always has the same outcome.
