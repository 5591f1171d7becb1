# backbeat

A low-overhead flight recorder, verified with Verus: capture structured events into ring buffers,
dump them to disk, and read the dump back as a table or a Chrome/Perfetto trace.

Dumps are self-describing. A dump carries the schemas of its own events, so the tools that read it
need no knowledge of the program that wrote it.

## Layout

`src/` is the library. Its functions state in their contracts what they return, and Verus proves it.
What a result owes to the clock or to chance is stated of every value that these may give.

- Definitions: `id`, `schema`, `event`, `derive` (what a declaration of an event amounts to).
- Capture: `record`, `ring`, `cpu`, `span`, `recorder`, `global` (settings, limits and the decisions
  of the dumper), `calendar` (the stamps of dump files), `registry`.
- The dump format: `format`, `le`, `wire`, and `parse`, its mathematical counterpart.
- Reading: `model` (loading), `stream` (the global order), `decode`, `convert`, `views`, `trace`,
  `inspect`, `merge`, `cli`.
- Laws: the modules that end in `_laws` hold the theorems that relate several functions, such as that
  a dump reads back as it was written, that a walk recovers the newest records, and that converting a
  merged dump gives what converting its inputs together gives. Smaller laws stand beside the
  functions they speak of; their names begin with `law_`.
- `buf` and `text` hold what is trusted of the `bytes` crate and of the strings of the standard
  library.

`app/` is the command line tool and the plumbing of an instrumented program: files, memory maps,
Parquet and JSON output, threads, signals, and the code that the derives emit. Nothing in it is
verified.

`tests/` runs the library.
