# parscript

An interpreter for a small scripting language that runs a script's
declarations in parallel where their dependencies allow.

`src/` is the verified library:

- `token`, `parser`, `stmt`: the lexer and the two parsers, each proved
  against a grammar written as spec functions;
- `scope`: the environment of nested scopes the interpreter runs in;
- `graph`, `codegraph`, `meta`: the dependency analysis, which turns the
  declarations into a graph of what each one reads and writes;
- `scheduler`: a topological order of the dependency graph;
- `task_graph`, `parallel_execution`, `scheduler_parallel`: the tasks the
  parallel executor runs, how declarations become tasks, and how ready tasks
  are handed to workers.

`app/` is the program around it: the command line, evaluation of values
(floating point), the worker threads, and the duration predictor.
