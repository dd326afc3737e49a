# minishell

The verified core of a small interactive shell, written in Verus.

- `src/` is the library, verified by Verus:
  - `text.rs`: character classes, trimming, word splitting, joining,
    decimal numbers and UTF-8 byte lengths;
  - `args.rs`: splitting a command line into arguments (quotes, escapes);
  - `vars.rs`: the `declare` and `complete` builtins over name tables;
  - `order.rs`: string order, sorting, deduplication, longest common prefix;
  - `completion.rs`: tab completion decisions (completion programs, files,
    command names) and the bell-then-list behaviour of repeated presses;
  - `jobs.rs`: background job numbers, markers and report lines;
  - `command.rs`: builtin dispatch, `&`, redirections, `type`, `echo`, `cd`,
    `history` and the executable search decision;
  - `pipeline.rs`: splitting at `|` and how each stage is connected.
- `app/main.rs` is the program: the line editor, processes, files and the
  directory listings, calling the library for every decision.
- `tests/` exercises the library on concrete inputs.
