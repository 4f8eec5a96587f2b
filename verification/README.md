# lock_free

Verified cores of lock-free and blocking synchronisation primitives: a spin
lock, a futex mutex, a reader-writer lock that keeps writers from starving, a
condition variable, an atomically reference-counted cell, a Michael & Scott
queue, and one-shot and multi-producer multi-consumer channels.

- `src/` is the library, verified with Verus. Each primitive holds its shared
  memory as plain values; `word.rs` gives every atomic instruction an exact
  meaning on such values. An operation that waits on other threads is a
  per-thread state machine: the phase says which instruction comes next, and
  the value the instruction returns decides the next phase.
- Laws over whole runs, from a new primitive and any interleaving of the
  threads' steps: mutual exclusion and no lost update under the lock (mutex,
  spin lock, reader-writer lock), no stranded waiting writer (reader-writer
  lock), sound reference counts (`arc`), every item accounted for exactly
  once and each enqueuer's items kept in order (queue), every accepted send
  received exactly once (channel), and the count of waiters kept right with
  no notification lost (condition variable), and the value sent received
  exactly once (one-shot channel). Progress is stated without interference: a waiting
  thread takes the lock within a few of its own steps once the holder has
  released it; that a blocked call eventually returns under a fair scheduler
  is not stated. The laws treat the instructions as sequentially consistent;
  the memory orders the instructions carry are not reasoned about.
- `app/` builds thread-safe versions of every primitive on real atomics and
  futex waits (`atomic-wait`): it issues the instructions the library names
  and feeds their results back to the library's decisions.
- `tests/` runs the library on concrete values, including interleavings of
  several threads' steps.
