# wrk

A library for keeping a daily markdown work log, verified with Verus, and the
`wrk` command around it.

Each day has a file `<log-dir>/YYYY/MM/YYYY-MM-DD.md` with a title, a
`## Work Log` section of timestamped entries (`- HH:MM project:type summary`,
continuation lines indented by two spaces) and a free-form `## Notes` section.

- `src/` is the verified library: calendar arithmetic, the entry line format,
  reading and writing day files, configuration and argument decisions, emoji
  shortcode expansion, search, listings, the `doctor` command's tests of the log directory and
  the editor command line. `src/laws.rs` holds the proofs that relate several
  of these functions, such as a day file reading back as it was written.
- `app/` is the command-line program: argument parsing with clap, files,
  the terminal, the environment and the editor process.
- `tests/` runs the library on concrete inputs.

The listings group entries by day and by project with sorted lists of the
dates and of the project labels, whose order and contents are stated
(`lists_dates` and `lists_labels` in `src/format.rs`), rather than with an
ordered map keyed by a date or a label. An ordered map with such keys was
not tried: for keys of that kind Verus's specifications of `BTreeMap` tell
little of the map's contents, whereas the sorted lists carry their invariant
in the contracts.
