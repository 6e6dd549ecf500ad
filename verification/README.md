# watchmanx

A file watcher that runs configured tasks when files change.

- `src/` is the verified library (Verus):
  - `config.rs`: watch rules, task definitions (a name-keyed registry
    without repeats), choice of the configuration file and of its format, the
    task listing;
  - `pattern.rs`: glob matching through the `glob` crate;
  - `watcher.rs`: which rules a path matches, the plan of task runs for an
    event and for a debounced batch of changes (later changes of a batch
    add only tasks that no earlier change named; runs get the task
    environment), configuration reload requests;
  - `debounce.rs`: grouping of changes within a sliding window;
  - `rpc.rs`: answers of the status and trigger requests;
  - `plugins.rs`: the verdict of an event filter plugin;
  - `cli.rs`, `server.rs`: plain data of the command line and the dashboard.
- `app/` is the program: command line parsing, file reading and parsing,
  the `notify` watch loop, process execution, the dashboard server.
- `tests/` exercises the library on concrete values.
