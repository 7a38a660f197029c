# Synchronous and Asynchronous Synchronization Primitives

Word-sized low-level synchronization primitives providing both asynchronous and synchronous
interfaces: `Lock`, `Semaphore`, `Gate`, `Barrier`, and `Pager`. What the primitives do is stated in
contracts and proved with [Verus](https://github.com/verus-lang/verus).

## Layout

- `src/` is the verified library.
  - `wait_queue` lays out the state word and the storage of a wait queue entry.
  - `opcode` defines what a task waits for.
  - `entry` is the exchange of a result between a waiting task and the task that serves it.
  - `memory` is the mathematical model of the memory that the tasks of a primitive share: the state
    word, the wait queue, and what other tasks may do to them in the meantime.
  - `sync_primitive` implements the fair wait queue on top of atomic accesses.
  - `lock`, `semaphore`, `gate`, `barrier`, and `pager` are the primitives.
  - `arena` stores a primitive for the tasks of a single thread.
  - `laws` states what holds of every primitive: that each task is prepared for what the others do,
    and what a single operation amounts to, whoever intervenes or, where it says so, if nobody does.
  - `system` states what holds of all the tasks of a primitive together, however they interleave:
    what they hold adds up to what is in use, so there is at most one exclusive owner.
- `app/` puts the library to work with atomics, threads, and futures. It blocks, wakes up, and drops
  tasks; wait queue entries live in pinned storage, so nothing is allocated on the heap.
- `tests/` runs the library: on its own, under a simulated scheduler, and with
  [`loom`](https://crates.io/crates/loom) under all the interleavings of a few threads.

## How concurrency is specified

A primitive is generic over `SyncPrimitive`, which gives one task access to the shared memory. Other
tasks may intervene before each access. What they may do is `Memory::rely`, and what the current task
may do is the precondition of each access; `laws` proves that the two fit together. Contracts hold
however the tasks interleave, and they pin down the result exactly as soon as nobody intervenes.

An acquisition returns `Acquisition::Done`, or `Acquisition::Waiting` together with the wait queue
entry that will be handed the result. Waiting for that result, by blocking a thread or by polling a
future, is up to the caller.
