# fixbolt_engine

The verified core of a FIX engine, written in Verus.

`src/` is the library; every function in it carries a contract that Verus
proves. It holds the logic of the engine that does not need a FIX session to
run: cutting a byte stream into messages (`frame`), masking secrets before
they reach a disk (`redact`), the journal's ring, record format, checksum and
read-back (`journal`), the message log's records and lines (`msglog`), the
pre-session stage that reads a `Logon` and holds sockets until one arrives
(`presession`), the queues other threads talk to an engine through
(`observe`, `origin`), a connection's buffers (`conn`), the reconnect ladder
(`reconnect`), resuming from a journal (`recovery`), the accept cadence
(`cadence`), clocks (`clock`), and what CPU masks and `poll(2)` answers mean
(`affinity`, `poll`, `block`). The crate root holds the bookkeeping of an
ordered shutdown.

Public `law_*` proof functions state properties that span several calls,
such as "a read gives back the last write" or "a mask of one core names it".

`app/` is ordinary Rust around the library: the lock-free ring between
threads, the system calls, the journal writer's thread and file, and the
handles other threads hold on a running engine.

`tests/` runs the library on concrete values.
