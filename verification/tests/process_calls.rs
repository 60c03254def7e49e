use lib::outcome::{Action, Outcome};
use lib::process::{
    sbrk_result, sys_exit, sys_get_time, sys_mmap, sys_munmap, sys_sbrk, sys_task_info,
    sys_yield, time_val_from_us, TaskInfo, TaskStatus, TimeVal, MAX_SYSCALL_NUM, PAGE_SIZE,
};

#[test]
fn exit_hands_the_code_to_the_kernel() {
    assert_eq!(sys_exit(3), Outcome::Perform(Action::ExitCurrent { exit_code: 3 }));
    assert_eq!(sys_exit(-1), Outcome::Perform(Action::ExitCurrent { exit_code: -1 }));
}

#[test]
fn yield_suspends_the_current_task() {
    assert_eq!(sys_yield(), Outcome::Perform(Action::SuspendCurrent));
}

#[test]
fn time_splits_into_seconds_and_microseconds() {
    assert_eq!(time_val_from_us(3_500_001), TimeVal { sec: 3, usec: 500_001 });
    assert_eq!(time_val_from_us(999_999), TimeVal { sec: 0, usec: 999_999 });
    assert_eq!(time_val_from_us(1_000_000), TimeVal { sec: 1, usec: 0 });
    assert_eq!(time_val_from_us(0), TimeVal { sec: 0, usec: 0 });
    let t = time_val_from_us(123_456_789);
    assert_eq!(t.sec * 1_000_000 + t.usec, 123_456_789);
}

#[test]
fn get_time_refuses_a_null_pointer() {
    assert_eq!(sys_get_time(0, 5_000_000), Outcome::Return(-1));
}

#[test]
fn get_time_writes_the_split_time() {
    assert_eq!(
        sys_get_time(0x1000, 7_250_000),
        Outcome::Perform(Action::WriteTimeVal {
            addr: 0x1000,
            time: TimeVal { sec: 7, usec: 250_000 }
        })
    );
}

#[test]
fn task_info_refuses_a_null_pointer() {
    let times = [0u32; MAX_SYSCALL_NUM];
    assert_eq!(sys_task_info(0, 10, 20, times), Outcome::Return(-1));
}

#[test]
fn task_info_reports_running_time_and_counts() {
    let mut times = [0u32; MAX_SYSCALL_NUM];
    times[64] = 1;
    times[169] = 4;
    let out = sys_task_info(0x2000, 1500, 200, times);
    assert_eq!(
        out,
        Outcome::Perform(Action::WriteTaskInfo {
            addr: 0x2000,
            info: TaskInfo { status: TaskStatus::Running, syscall_times: times, time: 1300 }
        })
    );
}

#[test]
fn mmap_refuses_bad_arguments() {
    assert_eq!(sys_mmap(0x1001, 4096, 1), Outcome::Return(-1));
    assert_eq!(sys_mmap(0x1000, 4096, 8), Outcome::Return(-1));
    assert_eq!(sys_mmap(0x1000, 4096, 9), Outcome::Return(-1));
    assert_eq!(sys_mmap(0x1000, 4096, 0), Outcome::Return(-1));
}

#[test]
fn mmap_passes_good_arguments_on() {
    for port in 1..8usize {
        assert_eq!(
            sys_mmap(0x10000000, 4096, port),
            Outcome::Perform(Action::Mmap { start: 0x10000000, len: 4096, port })
        );
    }
    assert_eq!(
        sys_mmap(0, 0, 3),
        Outcome::Perform(Action::Mmap { start: 0, len: 0, port: 3 })
    );
    assert_eq!(PAGE_SIZE, 4096);
}

#[test]
fn munmap_checks_alignment() {
    assert_eq!(sys_munmap(0x10000010, 4096), Outcome::Return(-1));
    assert_eq!(
        sys_munmap(0x10000000, 8192),
        Outcome::Perform(Action::Munmap { start: 0x10000000, len: 8192 })
    );
}

#[test]
fn sbrk_moves_the_break() {
    assert_eq!(sys_sbrk(-16), Outcome::Perform(Action::ChangeBrk { size: -16 }));
    assert_eq!(sbrk_result(Some(0x8000)), 0x8000);
    assert_eq!(sbrk_result(None), -1);
}
