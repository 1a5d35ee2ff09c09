# minishell

A small interactive shell whose command-line logic is written in Verus and
proved against mathematical specifications.

- `src/` — the verified library: quoting and argument splitting (`parser`),
  redirect parsing and variable expansion (`utils`), the built-in commands
  (`builtins`), job bookkeeping (`jobs`), pipeline stages and wiring
  (`executor`, `pipeline`), tab-completion decisions (`completion`), the
  search path (`path_checker`) and the history file (`session`), on top of
  character-level text functions (`text`) and a string map (`strmap`).
- `app/` — the program around it: the `rustyline` line editor, processes,
  files and the environment.
- `tests/` — tests of the library.
