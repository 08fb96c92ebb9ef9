# ct

`ct` runs a terminal command, shortens its output, and keeps a log of it. `ct-ctl` answers
questions about the latest run, and `ct-install` sets up the shell.

- `src/` is the verified library: the meaning of log lines, the detection of tools, the
  handling of output, the history of commands, and the texts that are shown. Its contracts
  are stated over sequences of characters, maps and small models of state; properties that
  span several functions stand as proof functions named `law_...`.
- `src/outside.rs` holds what is taken on trust from other crates.
- `app/` is the program around the library: arguments, files, processes, threads and the
  terminal. It reads the built-in profiles from the directory `filters.d` beside the
  program.
- `tests/` runs the library on concrete values.
