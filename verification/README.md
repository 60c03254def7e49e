# lib: verified system-call logic for a teaching kernel

The process-management and synchronisation calls of a small kernel, with
deadlock detection by the banker's algorithm, written in Verus.

- `src/process.rs`: exit, yield, time of day, task information, `mmap`,
  `munmap`, `sbrk`.
- `src/sync.rs`: sleep, mutexes, semaphores, condition variables, switching
  deadlock detection, and the two detection calls.
- `src/safety.rs`: what a safe state is (some order lets every thread
  finish), and the checker, proved to answer exactly that.
- `src/state.rs`: the process's synchronisation state and its view.
- `src/outcome.rs`: the work a call hands back to the kernel.
- `app/`: runs the calls against a `Kernel` trait that blocks, schedules,
  copies to user memory and changes the address space.
