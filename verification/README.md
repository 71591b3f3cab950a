# switchboard

A control panel for local services: a list of apps (a directory and a shell
command each), started one by one or all together in dependency order, with
their terminal output, readiness probes, logs and resource use on view.

- `src/` is the library, verified with Verus: the app list and its edits, the
  dependency graph and its layering, the checks on a new app, the scrollback
  buffer, the per-app run state, the decisions of a start-everything run, the
  readiness-probe steps, the stop timing, and the reading of process listings.
- `app/` is the desktop shell around it (Tauri window and tray, config file on
  disk, terminals, signals, network probes). It asks the library for its
  checks and decisions, and runs the loops that wait on processes and events.
- `tests/` runs the library on concrete cases.
