# netbench_core

The decisions of a set of network benchmark programs, verified with Verus, and the programs around
them.

- `src/tcp`: a server that plays one side of a benchmark scenario over TCP.
- `src/perf`: a client and a server that measure a QUIC connection.
- `app`: the programs. They own the sockets, the clocks and the command line, perform the operations
  that the library asks for, and report back what came of them.

A connection number is a 64-bit count, so the TCP server stops rather than reuse one.
