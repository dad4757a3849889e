# cache_core

The core of a caching proxy in front of an MCP server that speaks Streamable HTTP,
written in Verus. Answers to tool calls are kept in memory for a time to live. An
answer that names the files it was built on is dropped as soon as one of them is
reported as changed; others stay. A scope, usually a repository, can be frozen for
some time, or never cached at all.

- `src/` — the verified library: it decides what becomes of a call, of a backend's
  reply and of a request to a service endpoint. `proxy` is the place to start.
- `tests/` — tests of the library from outside.
- `app/` — the program around it: command line, files, HTTP, the MCP client and
  server, the average latency.

Functions whose outcome depends on the time come in two forms. One takes the moment
as an argument and says exactly what it does; its name ends in `_at`. The other reads
the clock and calls the first.

What rests on outside code is stated next to the call: the hash map under the tables
(`dashmap`), JSON texts (`serde_json`), the digest in a key (`sha2`, `hex`), the
monotonic clock and a few operations on strings. Public proof functions whose names
start with `law_` state what holds of the library as a whole.
