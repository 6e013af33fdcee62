# pathlight_core

The core of Pathlight, a monitor that tells which folders grew and which files
changed, with the byte delta each change caused.

- `src/` is the library, verified with Verus: paths and exclusions, size
  attribution, the activity journal and its rollups, history and exports,
  baselines and their reconciliation, evidence recordings, the decisions of
  each platform backend (inotify through `notify`, fanotify, FSEvents, the
  NTFS change journal), and the settings store.
- `tests/` holds the tests, run against the compiled library.
- `app/` is the command-line monitor around it: arguments, files, the clock,
  the `notify` watcher and JSON.
