# os

The system-call layer of a small teaching kernel, with a contract proved for each call.

Each kernel service is a plain-data model with the calls that act on it:

- `src/manager.rs`: the ready queue and its stride scheduler.
- `src/banker.rs`: the banker's algorithm safety check, proved to answer
  exactly whether a safe ordering of the threads exists.
- `src/sync.rs`: mutexes, semaphores, condition variables, sleeping, and the
  deadlock checks built on the banker's algorithm.
- `src/fs.rs`: a flat root directory of names for inodes, the console, and
  descriptor tables with `open`, `read`, `write`, `close`, `fstat`, `linkat`
  (a second name for the same inode) and `unlinkat`.
- `src/memory.rs`: an address space with `mmap`, `munmap`, `sbrk` and the
  validity checks of `get_time`.
- `src/process.rs`: the process tree, each process with its address space
  and registers, with `fork`, `spawn`, `exec`, `waitpid`, `exit`, `yield`
  and priorities.
- `src/slots.rs`: tables whose new entries take the first free slot.

`app/` holds the system-call entry (decoding a call, copying its arguments
and results to and from user memory, reading the clock, and retrying calls
that told the caller to spin), the kernel-wide ready queue as a global, and
the C layout of `TimeVal`. `tests/` exercises each call on concrete states.
