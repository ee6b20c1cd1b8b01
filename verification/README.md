# kernel_sync

Verified decision logic of a teaching kernel's synchronisation and memory
syscalls, written in Verus.

- `src/banker.rs` — the banker's safety check `is_safe`, specified against
  the existence of an order in which every task can finish.
- `src/semaphore.rs` — a counting semaphore that records its holders and
  waiters, with `down`/`up` given as exact state transitions.
- `src/sync.rs` — the resource tables (lowest-free-slot ids), deadlock
  avoidance for mutex locks and semaphore `down`s, and the detection switch.
- `src/process.rs`, `src/config.rs` — argument checks and request decoding
  of `trace`, `mmap`, `munmap`, `sbrk`, `get_time`, and user-
  address lookup from page-table entries.
- `src/matrix.rs` — helpers that build the banker's tables.

`app/` holds the syscall handlers that call these decisions and perform the
scheduling, paging and timer work through a `Kernel` trait.
