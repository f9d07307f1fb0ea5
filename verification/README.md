# sshpal

`sshpal` works with a remote machine over SSH: it syncs paths of a project in both directions
with `rsync`, and lets the remote machine run tasks of the local one through a helper script,
`sshpal-run`, and a reverse tunnel.

- `src/` is the library, verified with Verus. It decides: where a configuration is found and
  what is valid in it, which paths a sync may touch, which commands a task runs and what they
  are filled with, which requests of the remote machine are taken, when a task may start and
  what is sent back while it runs. It sees files, processes, sockets and clocks as plain
  values only.
- `app/` is the program around it: the command line, files, child processes and the HTTP
  server.
- `tests/` runs the library on concrete values.

What the library takes on trust stands next to the calls that need it: `String::push`
(`src/text.rs`), `humantime::format_duration` and `humantime::parse_duration`
(`src/time_span.rs`), `shell_words::split` and `shell_words::quote` (`src/tasks.rs`), and the
base64 encoder and `serde_json::to_string` on texts (`src/encoding.rs`).

On the remote machine the helper needs `/bin/sh`, `curl`, `jq` and `base64`.
