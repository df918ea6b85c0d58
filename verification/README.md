# live_files

A service that exposes named directory roots of text files (Markdown by
default) over HTTP and pushes change notifications over server-sent events.

- `src/` is the verified library (Verus): the visibility gate
  (`visibility`), logical and physical paths (`path`), glob sets
  (`glob`), tree listing (`scan`), file reads (`read`), change detection from
  native notifications (`watch`) and from polling snapshots (`poll`),
  duplicate suppression (`dispatch`), time formatting (`time_fmt`), and the
  server's configuration and response decisions (`config`, `config_file`,
  `server`).
- `app/` is the program around it: command line, `config.toml`, the
  directory walks and file reads, the watcher threads, and the axum routes.
  File-system work happens there; every decision about it is made by a
  library function.
- `tests/` exercises the library on concrete inputs.
