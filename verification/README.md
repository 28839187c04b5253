# hourus

A command-line time tracker for `.hours` logs, whose logic is verified with
Verus.

A log is a text file of lines `KIND - DATETIME - DESCRIPTION` (`START` or
`END`, `YYYY-MM-DD HH:MM:SS` or `YYYY-MM-DDTHH:MM:SS`, a task name kept in
lowercase).  A START followed by the END of the same task is one session.
`hourus` prints the total time, a per-task breakdown (pretty, JSON, CSV or
TSV), starts and ends sessions, and has an interactive screen.

## Layout

- `src/` — the verified library.
  - `entry`, `error`, `time`, `text`: log lines, sessions, points in time,
    and the character-level helpers.
  - `history`: the most-recently-used list of task names.
  - `report`, `summary`, `output`: a log read whole, per-task totals
    (longest first) and their presentation.
  - `log`: the sessions of a log held in memory, the lines each command
    appends, and proofs that reading the longer log back gives the same
    sessions.
  - `service`: the session status and the commands that change it, with
    the proof that the status keeps agreeing with the log.
  - `storage`, `cli`, `tui`: the texts, bytes and queries of the stores,
    the command line's rules, and the decisions of the interactive screen.
- `app/` — the program: argument parsing, files, SQLite, the terminal.
- `tests/` — tests of the library.
