//! What a system call hands back to the kernel that runs it: either the
//! value to return to the caller at once, or work that only the kernel can
//! do (block, schedule, touch user memory, change the address space).
use vstd::prelude::*;

use crate::process::{TaskInfo, TimeVal};

verus! {

/// Work that a system call leaves to the kernel.
///
/// Unless a variant says otherwise, the call returns 0 to its caller once the
/// kernel has done the work.
#[derive(PartialEq, Eq, Debug)]
pub enum Action {
    /// End the current thread with this exit code and run the next; the call
    /// never returns.
    ExitCurrent { exit_code: i32 },
    /// Suspend the current thread and run the next.
    SuspendCurrent,
    /// Set a timer that wakes the current thread at `expire_ms`, then block it.
    Sleep { expire_ms: usize },
    /// Copy `time` to user memory at `addr`.
    WriteTimeVal { addr: usize, time: TimeVal },
    /// Copy `info` to user memory at `addr`.
    WriteTaskInfo { addr: usize, info: TaskInfo },
    /// Map `len` bytes from `start` with permission bits `port`; the call
    /// returns what the address space answers.
    Mmap { start: usize, len: usize, port: usize },
    /// Unmap `len` bytes from `start`; the call returns what the address
    /// space answers.
    Munmap { start: usize, len: usize },
    /// Move the program break by `size`; the call returns what
    /// `sbrk_result` makes of the address space's answer.
    ChangeBrk { size: i32 },
    /// Lock mutex `mutex_id`, blocking until it is free. Where `record`
    /// holds, `mutex_lock_finish` books the lock once it is held.
    LockMutex { mutex_id: usize, record: bool },
    /// Unlock mutex `mutex_id`.
    UnlockMutex { mutex_id: usize },
    /// Release one unit of semaphore `sem_id`.
    SemaphoreUp { sem_id: usize },
    /// Take one unit of semaphore `sem_id`, blocking until there is one.
    /// Where `record` holds, `semaphore_down_finish` books the unit once
    /// it is taken.
    SemaphoreDown { sem_id: usize, record: bool },
    /// Wake one thread that waits on condition variable `condvar_id`.
    CondvarSignal { condvar_id: usize },
    /// Release mutex `mutex_id`, wait on condition variable `condvar_id`,
    /// and lock the mutex again.
    CondvarWait { condvar_id: usize, mutex_id: usize },
}

/// How a system call ends, as far as its own logic decides.
#[derive(PartialEq, Eq, Debug)]
pub enum Outcome {
    /// Return this value to the caller.
    Return(isize),
    /// Have the kernel do this work; see [`Action`] for the value returned.
    Perform(Action),
}

} // verus!
