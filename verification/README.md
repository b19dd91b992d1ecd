# proxy

A local HTTP range proxy for media players. A player asks it for a byte range of a file;
the proxy fetches the range from the origin in chunks, several at a time, and writes them
to the player in order, with bounded memory.

- `src/` is the library, verified with Verus: parsing of ranges and parameters, the head
  of the answer, the retries of a chunk, the pipeline that hands chunks out and puts them
  back into order, the life of the service, the clock of the health report. Its laws stand
  beside the functions that they are about, as proof functions named `law_..`.
- `tests/` runs the library on concrete values.
- `app/` is what surrounds it: sockets, HTTP, tasks and threads. It hands the library what
  happened and does what it is told. `main.rs` is the root of a program, `lib.rs` that of a
  shared object with the functions for a Java host.

The endpoints are `/` (answers `ok`), `/proxy?thread=..&chunkSize=..&url=..` and `/health`.
The service binds the loopback interface only, on port 5575 where no other is named.

What the library relies on of the `http`, `bytes` and `reqwest` crates and of the system
clock is stated in `src/headers.rs`, `src/player.rs`, `src/client.rs` and `src/clock.rs`.
