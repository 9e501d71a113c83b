# shellaborate

Batch shell: one request runs many shell, git and gh commands as a dependency
graph, with bounded concurrency, time limits and structured results.

- `src/` is the library. It checks requests, decides which step starts when,
  what is handed to the shell and what is reported. Every function states what
  it does in a contract, and Verus proves it.
- `app/` is the program: the command line, JSON, processes, files and the
  network.
- `tests/` runs the library.

## Modules

| Module | What it holds |
|---|---|
| `protocol` | requests, results and errors |
| `validation` | which requests are accepted, and the laws of accepted ones |
| `graph` | waiting sets, stuck steps and cycles |
| `plan` | the plan and the graph as they are printed |
| `schedule`, `batch` | which step starts when, and the answer |
| `shell`, `shell_laws` | segments, the safety denylist, `cd` prefixes |
| `step` | what one step is started with, and its report |
| `capture` | what is kept of an output stream |
| `output` | masked secrets, `git diff --stat`, sign-in failures |
| `artifact` | files handed back with the answer |
| `update` | releases and their checksums |
| `cli` | flags, exit codes and generated files |
| `paths`, `text` | paths as each system writes them, and text |
| `outside` | the calls into other crates, with what is taken on trust |
