# wash

An interactive shell whose core is verified with Verus.

A line typed at the prompt is edited by a line editor, read into values
(words, quoted strings, lists and function calls), compiled into sections of
stack-machine actions, simplified, and run. The parts that compute are the
library under `src/`, each function with a contract that Verus proves; the
parts that talk to the terminal, start processes and read files are the
program under `app/`.

## Layout

- `src/input.rs`: the line being typed and how it is read into values.
- `src/editor.rs`: the line editor: what each key does to the line and the
  history, and what the terminal is asked to show.
- `src/screen.rs`: the model of the terminal screen (cursor, row lengths,
  scrolling) and the control sequences written for each move.
- `src/ast.rs`, `src/compile.rs`: the compiler from values to actions, with
  the handler words (`=`, `==`, `&&`, `|`, `>`, `if!`, `while!`, `func!`, `}`...)
  and a model of it in `compile.rs` that the compiler is proved against.
- `src/sections.rs`, `src/optimize.rs`: the table of sections and the passes
  that combine actions and fold jumps.
- `src/runner.rs`: the machine that runs the actions, one step at a time; the
  calls and variable accesses it needs are events that the program serves.
- `src/store.rs`, `src/vars.rs`: variables, kept by path.
- `src/builtins.rs`, `src/launch.rs`, `src/jobs.rs`, `src/paths.rs`: the
  builtin functions that only compute, how `run` and `job` read their
  arguments, job reports, and home-directory paths.
- `src/script.rs`: where the compiled form of a script is kept (by its
  SHA-256 digest).
- `src/trans.rs`: the translator of script lines into Rust source; run under
  the name `trans`, the program translates a script file.
- `app/`: the terminal, processes, files and the main loop.

Outside crates: `regex` (for `re_equal?`) and `sodiumoxide` (SHA-256) are
called from the library behind small trusted wrappers; `libc` serves the
program's terminal and process handling.
