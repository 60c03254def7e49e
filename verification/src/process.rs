//! Process management calls: exit, yield, time, task information, memory
//! mapping and the program break.
use vstd::prelude::*;

use crate::outcome::{Action, Outcome};

verus! {

/// Size of a page, in bytes.
pub const PAGE_SIZE: usize = 0x1000;

/// Number of system call numbers that are counted.
pub const MAX_SYSCALL_NUM: usize = 500;

/// A time of day, split into seconds and microseconds.
#[derive(Clone, Copy, PartialEq, Eq, Structural, Debug)]
pub struct TimeVal {
    pub sec: usize,
    pub usec: usize,
}

/// The life-cycle state of a task.
#[derive(Clone, Copy, PartialEq, Eq, Structural, Debug)]
pub enum TaskStatus {
    UnInit,
    Ready,
    Running,
    Exited,
}

/// Task information
#[derive(Clone, Copy, PartialEq, Eq, Debug)]
pub struct TaskInfo {
    /// Task status in its life cycle
    pub status: TaskStatus,
    /// The number of calls of each system call made by the task
    pub syscall_times: [u32; MAX_SYSCALL_NUM],
    /// Total running time of the task, in milliseconds
    pub time: usize,
}

/// A page is 4096 bytes.
pub proof fn lemma_page_size()
    ensures
        PAGE_SIZE == 4096,
{
}

/// A map request is accepted exactly when `start` is a multiple of 4096 and
/// `port` is one of 1 to 7.
pub proof fn lemma_mmap_args(start: usize, port: usize)
    ensures
        mmap_args_ok(start, port) <==> (start % 4096 == 0 && 1 <= port <= 7),
{
}

/// The time of day splits the microseconds into whole seconds and a
/// remainder below a second, which together give the microseconds back.
pub proof fn lemma_time_val_of(us: usize)
    ensures
        time_val_of(us).sec * 1_000_000 + time_val_of(us).usec == us,
        time_val_of(us).usec < 1_000_000,
{
}

/// Microseconds in a second.
pub const MICROS_PER_SEC: usize = 1_000_000;

/// The time of day `us` microseconds after the epoch.
pub open spec fn time_val_of(us: usize) -> TimeVal {
    TimeVal { sec: (us / 1_000_000) as usize, usec: (us % 1_000_000) as usize }
}

/// The task exits with an exit code; the kernel runs the next task.
pub fn sys_exit(exit_code: i32) -> (out: Outcome)
    ensures
        out == Outcome::Perform(Action::ExitCurrent { exit_code }),
{
    Outcome::Perform(Action::ExitCurrent { exit_code })
}

/// The current task gives up the processor to other tasks.
pub fn sys_yield() -> (out: Outcome)
    ensures
        out == Outcome::Perform(Action::SuspendCurrent),
{
    Outcome::Perform(Action::SuspendCurrent)
}

/// Splits `us` microseconds into seconds and microseconds.
pub fn time_val_from_us(us: usize) -> (tv: TimeVal)
    ensures
        tv == time_val_of(us),
        tv.sec * 1_000_000 + tv.usec == us,
        tv.usec < 1_000_000,
{
    TimeVal { sec: us / MICROS_PER_SEC, usec: us % MICROS_PER_SEC }
}

/// Gets the time of day, with seconds and microseconds, into user memory at
/// `ts`; `now_us` is the clock, in microseconds. A null `ts` is refused
/// with -1.
pub fn sys_get_time(ts: usize, now_us: usize) -> (out: Outcome)
    ensures
        ts == 0 ==> out == Outcome::Return(-1isize),
        ts != 0 ==> out == Outcome::Perform(
            Action::WriteTimeVal { addr: ts, time: time_val_of(now_us) },
        ),
{
    if ts == 0 {
        return Outcome::Return(-1);
    }
    let time_value = time_val_from_us(now_us);
    Outcome::Perform(Action::WriteTimeVal { addr: ts, time: time_value })
}

/// Gets the current task's information into user memory at `ti`: it is
/// running, has made `syscall_times` calls, and has run from `start_ms` to
/// `now_ms`. A null `ti` is refused with -1.
pub fn sys_task_info(
    ti: usize,
    now_ms: usize,
    start_ms: usize,
    syscall_times: [u32; MAX_SYSCALL_NUM],
) -> (out: Outcome)
    requires
        ti != 0 ==> start_ms <= now_ms,
    ensures
        ti == 0 ==> out == Outcome::Return(-1isize),
        ti != 0 ==> out == Outcome::Perform(
            Action::WriteTaskInfo {
                addr: ti,
                info: TaskInfo {
                    status: TaskStatus::Running,
                    syscall_times,
                    time: (now_ms - start_ms) as usize,
                },
            },
        ),
{
    if ti == 0 {
        return Outcome::Return(-1);
    }
    let task_value = TaskInfo {
        time: now_ms - start_ms,
        status: TaskStatus::Running,
        syscall_times: syscall_times,
    };
    Outcome::Perform(Action::WriteTaskInfo { addr: ti, info: task_value })
}

/// The arguments of a map request are acceptable: `start` is page aligned,
/// and `port` holds some of the read, write and execute bits and nothing else.
pub open spec fn mmap_args_ok(start: usize, port: usize) -> bool {
    start % PAGE_SIZE == 0 && 0 < port < 8
}

/// Maps `len` bytes from `start`, with permissions `port` (bit 0 read, bit
/// 1 write, bit 2 execute). A misaligned `start`, or a `port` with other
/// bits or with none, is refused with -1; otherwise the address space
/// decides.
pub fn sys_mmap(start: usize, len: usize, port: usize) -> (out: Outcome)
    ensures
        !mmap_args_ok(start, port) ==> out == Outcome::Return(-1isize),
        mmap_args_ok(start, port) ==> out == Outcome::Perform(Action::Mmap { start, len, port }),
        start % PAGE_SIZE == 0 && 0 < port < 8 ==> out == Outcome::Perform(
            Action::Mmap { start, len, port },
        ),
        start % PAGE_SIZE != 0 || port == 0 || port >= 8 ==> out == Outcome::Return(-1isize),
{
    if start % PAGE_SIZE != 0 {
        return Outcome::Return(-1);
    }
    assert(port & !0x7usize == 0usize <==> port < 8) by (bit_vector);
    if port & !0x7 != 0 {
        return Outcome::Return(-1);
    }
    assert(port < 8 ==> (port & 0x7usize == 0usize <==> port == 0)) by (bit_vector);
    if port & 0x7 == 0 {
        return Outcome::Return(-1);
    }
    Outcome::Perform(Action::Mmap { start, len, port })
}

/// Unmaps `len` bytes from `start`. A misaligned `start` is refused with
/// -1; otherwise the address space decides.
pub fn sys_munmap(start: usize, len: usize) -> (out: Outcome)
    ensures
        start % PAGE_SIZE != 0 ==> out == Outcome::Return(-1isize),
        start % PAGE_SIZE == 0 ==> out == Outcome::Perform(Action::Munmap { start, len }),
{
    if start % PAGE_SIZE != 0 {
        return Outcome::Return(-1);
    }
    Outcome::Perform(Action::Munmap { start, len })
}

/// Changes the data segment size by `size` bytes.
pub fn sys_sbrk(size: i32) -> (out: Outcome)
    ensures
        out == Outcome::Perform(Action::ChangeBrk { size }),
{
    Outcome::Perform(Action::ChangeBrk { size })
}

/// What `sys_sbrk` returns, given what moving the break answered: the old
/// break, or -1 where the break could not move.
pub fn sbrk_result(old_brk: Option<usize>) -> (ret: isize)
    ensures
        ret == match old_brk {
            Some(b) => b as isize,
            None => -1isize,
        },
{
    if let Some(old_brk) = old_brk {
        old_brk as isize
    } else {
        -1
    }
}

} // verus!
