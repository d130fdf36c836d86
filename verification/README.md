# linux_system_monitor

A Linux process monitor whose core is verified with Verus.

- `src/` is the verified library:
  - `status.rs` reads the text of a `/proc/[pid]/status` file into a
    `ProcessStatus` (name, state, pid, parent pid, threads, resident memory),
    with its laws (unknown lines are ignored wherever they stand, lines for different fields
    commute, the later line for a field wins, CRLF texts read like LF texts);
  - `text.rs` holds the character helpers (digit filter, `str::trim`,
    `u32::from_str`);
  - `proc_dir.rs` picks process directories out of `/proc` and builds status
    file paths;
  - `metrics.rs` holds the bounded sample history behind the graphs;
  - `table.rs` shortens process names for the table.
- `app/` is the program around it: the egui window, the sysinfo sampling,
  file and directory reading, and the PostgreSQL storage.
- `tests/` runs the library on concrete inputs.
