# oslab kernel logic, verified

The decision-making parts of a small RISC-V teaching kernel, written in Verus and
proved against their contracts: physical page pools, Sv39 page tables, user
address spaces, ELF loading, the process table and scheduler, locks, timers,
the console, and the file system's block, buffer, bitmap, directory and device
layers. Hardware is replaced by plain models: memory is a vector of words split
into a kernel pool and a user pool, a block device is a trait with an in-memory
disk, and a process table is a vector of slots.

Layout:

- `src/` — the library, every function verified by Verus but one trusted wrapper
  around the standard library's UTF-8 check (`fs::device::is_utf8`).
  - `mm/` — page pools (`pmem`), page tables (`vm`), user memory (`uvm`).
  - `mem/` — the region pool behind `mmap` and the pool front end.
  - `proc/`, `sched.rs` — process slots, life cycle, scheduling.
  - `fs/` — devices, buffer caches, bitmaps, directories, mounting.
  - `elf.rs`, `proc/elf.rs` — program images.
  - `lock/`, `sync.rs` — spin and sleep locks with interrupt bookkeeping.
  - `console.rs`, `console_input.rs`, `timer.rs`, `trap/` — text output,
    line editing, ticks and trap decisions.
- `tests/` — ordinary Rust tests against the compiled library.
- `app/` — a hosted program that boots the models and prints what they report.
