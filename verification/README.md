# switchboard

A launcher for local development applications (Cargo, npm, .NET, Maven,
Python, Go or any shell command): it keeps their configuration, starts and
stops them, keeps a bounded log buffer per application, probes their address,
and hands the frontends incremental views of all of it.

## Layout

- `src/` is the library, verified with Verus:
  - `app_config.rs`: application kinds, configurations, the configuration
    list (add, remove, update, export of a subset, merge of an import by name);
  - `engine.rs`: the engine state (configuration, run-time state per
    application, live supervisors, revision counter), event handling, the
    views polled by frontends with incremental log delivery, the "start all"
    plan by start-order tiers;
  - `process_manager.rs`: the commands each kind runs, shell quoting, the
    status a finished run leaves, and the steps of the supervising loop with
    its automatic restart;
  - `process_tree.rs`: the process subtree of an application and its memory;
  - `frontend.rs`: what the user interface computes from the views (client
    log buffer, log search, row styling, selection, the edit form);
  - `health.rs`, `log_stream.rs`, `text.rs`: probe outcomes, events, and
    character-level text operations;
  - `laws.rs`: properties that relate several operations.
- `tests/` runs the library on concrete values.
- `app/` is the program around it: the GTK/libadwaita window, the C ABI for
  the other frontends, the configuration file, process spawning, health
  probes and resource sampling.
