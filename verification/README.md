# rcore_os

The task-management core of a small teaching kernel, written in Verus:
every function in `src/` carries a contract and is proved against it.

- `src/mm.rs` — virtual addresses and page numbers, mapping permissions,
  and an address space made of mapped areas.
- `src/trap.rs` — the trap context of a task.
- `src/task/task.rs` — task control blocks: creation, `fork`, `exec`,
  program break, `mmap`/`munmap`, stride-scheduling state.
- `src/task/manager.rs` — the ready queue with stride scheduling.
- `src/task/mod.rs` — the list of loaded tasks with round-robin switching,
  system-call counters, and memory mapping for the running task.
- `src/task/process.rs` — process control blocks: creation and `fork`
  (with a fresh pid, registration by pid and the main thread queued),
  threads, file descriptors, synchronization objects, argument layout for
  `exec`, and the resource tables with the banker's-algorithm safety check.
- `src/task/deadlock.rs` — what a safe resource state is, and the proofs
  about the safety check.
- `src/task/id.rs` — pids, kernel stacks, and the recycling id allocator.
- `src/syscall/process.rs` — the process-management system calls.

`app/lib.rs` holds the kernel-wide instances (the two managers, the pid
allocator and the pid-to-process map) and the entry points that use them;
it reads and writes user memory through a small trait. Context switches
and timers are left to the code around this crate: the library returns
what to switch to, where to write, or what to read.

The pid-to-process map and the ready queue hold their own copies of a
process and of its main thread, equal field by field to the value handed
back; the kernel shares one object between them instead.
