# parasol

The logic of a parallel portfolio solver for MiniZinc, verified with Verus.

- `src/` is the library: which solvers and compilations run at a time and on how many cores, what the
  user asked for, what solvers print, how models are read, and what is done when something fails.
  Every function states what it does over mathematical models of its data; the laws that hold across
  functions are public proof functions whose names begin with `law_`.
- `tests/` runs the library on concrete values.
- `app/` is the program around the library: the command line, processes, files, timers, and the
  floating-point arithmetic of predictions and memory shares.

What is trusted rather than proved is marked `external_body` or `uninterp`, and each such item says
what it claims: `regex` finds the `solve` statement of a model, `serde_json` reads models and writes
texts, `uuid` makes up file names, and `str::to_lowercase` lowers the names of solvers.
