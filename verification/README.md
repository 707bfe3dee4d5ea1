# sema-storage

The decisions of a central document store and identity authority, verified with
Verus, and a program around them.

- `src/` is the library. Every function in it is verified.
  - `protocol`, `records`, `tables`: requests, replies, and the records that an
    engine holds.
  - `documents`, `allocator`, `identity`, `authority`: what a request finds, what
    it is given and what it writes.
  - `dispatch`, `session`: requests and connections as machines that alternate
    between decisions and outside work.
  - `wire`, `arguments`, `commands`: frames and command lines.
  - the modules whose names end in `_laws`: what holds across operations.
  - `history`: requests served one after another on the same tables; its laws hold
    whatever is served in between.
- `tests/` runs the library over an engine in memory.
- `app/` is the program: actors, the storage engine, the socket. It performs the
  outside work and hands the outcome back to the library.

Record tables are modelled as finite maps that are read in an order of the
engine's own. The laws hold whatever that order is.
