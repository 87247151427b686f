# rkv

A persistent key-value store served over TCP, with a line-based text protocol.

- `src/` is the library, verified with Verus: the protocol (`protocol`), the ordered
  in-memory store with expiry (`store`), log records and recovery from a log image
  (`persist`), command execution as decisions over the store and the log (`engine`),
  argument handling (`config`) and the per-line decisions of a connection and of the
  console client (`session`).
- `app/` is the program around it: files, sockets, threads and the clock.
  `rkv [server] [--addr <ip:port>] [--data <file>]` runs the server,
  `rkv client [--addr <ip:port>]` the console client.
- `tests/` exercises the library.
