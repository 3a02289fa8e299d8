# Verified core of the KeOS kernel projects

This crate holds the logic of the five KeOS teaching-kernel projects as
verified Rust: every function carries a `requires`/`ensures` contract that
Verus proves, and the properties that relate several operations are stated
and proved as public proof functions (`lemma_*`).

What a running kernel takes from hardware or from its runtime (physical
pages, threads, the disk device, the terminal) is modelled by plain values:
the `Machine` of `machine.rs` stands for the user memory, the terminal, the
pipes and the files of a process; the `Disk` of the file system is a vector
of 4 KiB blocks; threads and physical pages are named by numbers.

## Layout

- `error.rs`: the kernel's error type and its Linux error numbers.
- `bytes.rs`: little-endian encoding of integers.
- `machine.rs`: the state that system calls act on.
- `simple_fs.rs`: the read-only file system of the early projects.
- `project1/`: the system call ABI, the file descriptor table and its
  system calls (`open`, `read`, `write`, `seek`, `tell`, `close`, `pipe`),
  and the checks that exercise them.
- `project2/`: ELF parsing, the user stack builder, the x86-64 four-level
  page table, and the memory map of a process (`mmap`, `munmap`,
  `access_ok`).
- `project3/`: lazy paging (demand loading of anonymous and file-backed
  pages), copy-on-write `fork`, and the page-fault path.
- `project4/`: mutex, condition variable and semaphore as step machines over
  thread ids, the thread life cycle (create, exit, join, exit of the group),
  and the multicore round-robin scheduler.
- `project5/`: the LRU cache; the page cache over it (reads, writes,
  readahead, write-back, eviction with write-back of dirty slots, unlink);
  and the fast file system: on-disk layout and its encoding, bitmaps,
  inodes with direct and indirect blocks, directories, mounting, writes to
  regular files, and the write-ahead journal. A write to a regular file and
  each directory operation commit the metadata blocks they change (the
  directory block, the inodes, the bitmaps and the superblock) through the
  journal. The journal's recovery is proved to apply a committed
  transaction entirely or not at all, and, for an added directory entry,
  the disk after a crash and recovery is proved to hold the directory as it
  was before the add when the transaction was not committed, and as it is
  after the add, the entry found under its name, when it was.

The tests under `tests/` run the library on concrete scenarios.
