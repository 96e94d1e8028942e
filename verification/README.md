# qcperf-tui

A terminal front end for libqcperf: dashboards of live metric graphs fed by
the capabilities libqcperf reports, with shared profiling requests, an
editor, CSV export and JSON snapshots.

The library (`src/`) is verified with Verus:

- `model/` capabilities, graphs, rates and their validation, dashboards and
  the default overview, sample rings with their window and capacity;
- `backend/session.rs` the table of running requests shared by dashboards,
  and `backend/session_laws.rs` what its operations keep true and promise
  of each other; `backend/runs.rs` the program's starts, stops and edits
  as runs of those operations, and what holds over any sequence of them;
- `backend/qcperf.rs` what is made of libqcperf's answers, records and
  callbacks;
- `ui/` the editor's keys, the live view's cells and grid, and the text
  lines of each screen;
- `app.rs` the state between keys and the commands a key leaves to the
  program;
- `export/` RFC 3339 times, CSV rows and snapshot contents; `persist.rs`
  the order of loaded dashboards; `theme.rs` the series palette.

`app/` is the program around it: the terminal (crossterm, ratatui), the
files (TOML, JSON), and the libqcperf calls through its generated bindings.

## Design notes

- The session table keeps its requests and rings in `Vec`s, not hash maps.
  vstd models a `HashMap` only for keys whose `obeys_key_model` it proves,
  which are the primitive integers; a request is keyed by a
  (backend, capability) pair and a ring by a (dashboard id, metric id) pair,
  and a dashboard id alone already takes all 128 bits of the widest integer.
  With a `Vec` the table's order is also fixed: requests in the order they
  started, subscribers in the order they joined. The invariant that a map
  would have given for free, one request per capability and one ring per
  dashboard and metric, is stated as `table_ok` and kept by every operation.
- A dashboard id is drawn from the system's random source with
  `getrandom::fill` and shaped into a version 4 UUID by the uuid crate. When
  the random source fails, `Dashboard::new` returns an error instead of
  panicking, and the program shows it on the status line.
- The program's file paths (`app/files.rs`) are joins of `std::path` values
  under the configuration directory; vstd gives `PathBuf` no specification,
  so they stay with the file I/O.
- `app/ffi.rs` includes libqcperf's declarations from `bindings.rs` in the
  directory named by `OUT_DIR`: the file bindgen generates from libqcperf's
  header. The package has no build script, so building the program needs
  libqcperf installed and that file generated beforehand; the verified
  library depends on neither.
