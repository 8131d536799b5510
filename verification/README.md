# provider_sync

Keeps a local history of Codex sessions usable after the model provider was changed: it
rewrites the provider in rollout files, databases, the local thread catalog and the global
state, all within a transaction that can be rolled back.

- `src/` is the library: what is decided and computed, with contracts that Verus proves.
  - `text`, `paths`, `names`, `digest`, `json`: texts, paths, file names, SHA-256 and JSON.
  - `source`, `workspace`, `provider`: markers of subagents, workspace paths, providers.
  - `rollout`, `scan_state`, `collect`: reading and staging rollout files, and the record
    of what was read.
  - `lock`: the lock that keeps two synchronisations apart.
  - `transaction`, `apply`: transactions, replacing rollout files, rolling back.
  - `backup`: backups of databases and of the global state, and restoring them.
  - `catalog`, `repair`, `threads`, `sql`: threads in databases, and the repair of catalogs.
  - `session_index`, `global_state`: the index of sessions and the global state.
  - `sync`, `remote`: the runs of a synchronisation and of a remote control recovery.
- `app/` performs the steps that the library asks for: files, databases, processes.
- `tests/` runs the library on given values.

Contracts speak of texts and bytes as sequences. What an outside crate computes is named
where it takes pages to state: the SHA-256 of some bytes (`digest`), what `serde_json`
reads and writes (`json`), and how `{:?}` quotes a text (`provider`).
