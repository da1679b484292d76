# ov6

The logic of a small operating system for 64-bit RISC-V machines with Sv39 paging,
written in Verus. Functions state what they do in `requires` and `ensures` clauses,
which are proved.

- `src/memory` — addresses, pages and their reference counts, page tables with
  copy-on-write, and access to the memory of user programs
- `src/fs` — the virtio block device, the write-ahead log with its recovery, and
  directories, links and paths
- `src/interrupt`, `src/console.rs` — traps, the enabling of interrupts, backtraces
- `src/proc.rs`, `src/sync` — processes, spin locks, sleep locks, condition variables
- `src/lru.rs`, `src/slab_allocator.rs`, `src/arrays.rs`, `src/bytes.rs` — data
  structures
- `src/syscall.rs`, `src/types.rs`, `src/error.rs` — the system call interface
- `src/net`, `src/user` — messages of the domain name system, the shell's parser,
  standard streams, the test runner and the prime sieve

Properties that relate several functions are public proof functions named `law_*`.
`tests` runs the library on concrete values. `app` holds what surrounds it: assembly,
device access, and input and output.

Machine words and addresses are `u64`; `usize` is used for indices only.
