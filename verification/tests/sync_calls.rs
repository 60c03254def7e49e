use lib::outcome::{Action, Outcome};
use lib::safety::is_safe_state;
use lib::state::{place_in_free_slot, Condvar, MutexKind, ProcessState, Semaphore, TaskState};
use lib::sync::{
    mutex_check_ready, semaphore_check_ready,
    mutex_deadlock_detect, mutex_lock_finish, semaphore_deadlock_detect, semaphore_down_finish,
    sys_condvar_create, sys_condvar_signal, sys_condvar_wait, sys_enable_deadlock_detect,
    sys_mutex_create, sys_mutex_lock, sys_mutex_unlock, sys_semaphore_create,
    sys_semaphore_down, sys_semaphore_up, sys_sleep, DEADLOCK,
};

fn task(mutexes: usize, semaphores: usize) -> Option<TaskState> {
    Some(TaskState {
        mutex_request: vec![0; mutexes],
        mutex_allocation: vec![0; mutexes],
        request: vec![0; semaphores],
        allocation: vec![0; semaphores],
    })
}

fn process(threads: usize, mutexes: usize, semaphores: usize) -> ProcessState {
    let mut tasks = Vec::new();
    for _ in 0..threads {
        tasks.push(task(8, 8));
    }
    ProcessState {
        tasks,
        mutex_list: vec![Some(MutexKind::Blocking); mutexes],
        semaphore_list: vec![Some(Semaphore { all_count: 1 }); semaphores],
        condvar_list: Vec::new(),
        enable_deadlock_detect: true,
    }
}

fn counters(p: &ProcessState, tid: usize) -> &TaskState {
    p.tasks[tid].as_ref().unwrap()
}

#[test]
fn sleep_sets_a_timer() {
    assert_eq!(sys_sleep(1000, 250), Outcome::Perform(Action::Sleep { expire_ms: 1250 }));
}

#[test]
fn create_reuses_the_lowest_free_slot() {
    let mut p = process(1, 0, 0);
    p.mutex_list = vec![Some(MutexKind::Spin), None, Some(MutexKind::Spin), None];
    assert_eq!(sys_mutex_create(&mut p, true), 1);
    assert_eq!(p.mutex_list[1], Some(MutexKind::Blocking));
    assert_eq!(sys_mutex_create(&mut p, false), 3);
    assert_eq!(p.mutex_list[3], Some(MutexKind::Spin));
    assert_eq!(sys_mutex_create(&mut p, false), 4);
    assert_eq!(p.mutex_list.len(), 5);
}

#[test]
fn semaphore_and_condvar_creation() {
    let mut p = process(1, 0, 0);
    assert_eq!(sys_semaphore_create(&mut p, 3), 0);
    assert_eq!(sys_semaphore_create(&mut p, 0), 1);
    p.semaphore_list[0] = None;
    assert_eq!(sys_semaphore_create(&mut p, 5), 0);
    assert_eq!(p.semaphore_list[0], Some(Semaphore { all_count: 5 }));
    assert_eq!(sys_condvar_create(&mut p), 0);
    assert_eq!(sys_condvar_create(&mut p), 1);
    assert_eq!(p.condvar_list, vec![Some(Condvar {}), Some(Condvar {})]);
}

#[test]
fn place_in_free_slot_appends_when_full() {
    let mut slots = vec![Some(1u8), Some(2u8)];
    assert_eq!(place_in_free_slot(&mut slots, 7u8), 2);
    assert_eq!(slots, vec![Some(1), Some(2), Some(7)]);
}

#[test]
fn enable_deadlock_detect_takes_only_zero_or_one() {
    let mut p = process(1, 0, 0);
    assert_eq!(sys_enable_deadlock_detect(&mut p, 2), -1);
    assert!(p.enable_deadlock_detect);
    assert_eq!(sys_enable_deadlock_detect(&mut p, 0), 0);
    assert!(!p.enable_deadlock_detect);
    assert_eq!(sys_enable_deadlock_detect(&mut p, 1), 0);
    assert!(p.enable_deadlock_detect);
}

#[test]
fn lock_without_detection_books_nothing() {
    let mut p = process(2, 2, 0);
    p.enable_deadlock_detect = false;
    assert_eq!(
        sys_mutex_lock(&mut p, 0, 1),
        Outcome::Perform(Action::LockMutex { mutex_id: 1, record: false })
    );
    assert_eq!(mutex_lock_finish(&mut p, 0, 1, false), 0);
    assert_eq!(counters(&p, 0).mutex_request, vec![0; 8]);
    assert_eq!(counters(&p, 0).mutex_allocation, vec![0; 8]);
}

#[test]
fn crossed_mutex_requests_are_refused() {
    let mut p = process(2, 2, 0);
    assert_eq!(
        sys_mutex_lock(&mut p, 0, 0),
        Outcome::Perform(Action::LockMutex { mutex_id: 0, record: true })
    );
    assert_eq!(counters(&p, 0).mutex_request[0], 1);
    assert_eq!(mutex_lock_finish(&mut p, 0, 0, true), 0);
    assert_eq!(counters(&p, 0).mutex_request[0], 0);
    assert_eq!(counters(&p, 0).mutex_allocation[0], 1);
    assert_eq!(
        sys_mutex_lock(&mut p, 1, 1),
        Outcome::Perform(Action::LockMutex { mutex_id: 1, record: true })
    );
    assert_eq!(mutex_lock_finish(&mut p, 1, 1, true), 0);
    // Thread 0 waits for mutex 1: thread 1 can still finish and free it.
    assert_eq!(
        sys_mutex_lock(&mut p, 0, 1),
        Outcome::Perform(Action::LockMutex { mutex_id: 1, record: true })
    );
    assert_eq!(mutex_deadlock_detect(&p), 0);
    // Thread 1 now asking for mutex 0 closes the cycle.
    assert_eq!(sys_mutex_lock(&mut p, 1, 0), Outcome::Return(DEADLOCK));
    assert_eq!(DEADLOCK, -0xDEAD);
    assert_eq!(counters(&p, 1).mutex_request[0], 0);
    assert_eq!(counters(&p, 0).mutex_request[1], 1);
}

#[test]
fn mutex_unlock_books_the_semaphore_holding() {
    let mut p = process(1, 1, 1);
    p.tasks[0].as_mut().unwrap().allocation[0] = 2;
    assert_eq!(sys_mutex_unlock(&mut p, 0, 0), Outcome::Perform(Action::UnlockMutex { mutex_id: 0 }));
    assert_eq!(counters(&p, 0).allocation[0], 1);
    p.enable_deadlock_detect = false;
    assert_eq!(sys_mutex_unlock(&mut p, 0, 0), Outcome::Perform(Action::UnlockMutex { mutex_id: 0 }));
    assert_eq!(counters(&p, 0).allocation[0], 1);
}

#[test]
fn semaphore_down_refuses_a_deadlock() {
    let mut p = process(2, 0, 2);
    assert_eq!(
        sys_semaphore_down(&mut p, 0, 0),
        Outcome::Perform(Action::SemaphoreDown { sem_id: 0, record: true })
    );
    assert_eq!(semaphore_down_finish(&mut p, 0, 0, true), 0);
    assert_eq!(
        sys_semaphore_down(&mut p, 1, 1),
        Outcome::Perform(Action::SemaphoreDown { sem_id: 1, record: true })
    );
    assert_eq!(semaphore_down_finish(&mut p, 1, 1, true), 0);
    assert_eq!(
        sys_semaphore_down(&mut p, 0, 1),
        Outcome::Perform(Action::SemaphoreDown { sem_id: 1, record: true })
    );
    assert_eq!(sys_semaphore_down(&mut p, 1, 0), Outcome::Return(DEADLOCK));
    assert_eq!(counters(&p, 1).request, vec![0; 8]);
    assert_eq!(semaphore_deadlock_detect(&p), 0);
}

#[test]
fn semaphore_with_spare_units_is_not_a_deadlock() {
    let mut p = process(2, 0, 1);
    p.semaphore_list[0] = Some(Semaphore { all_count: 2 });
    assert_eq!(
        sys_semaphore_down(&mut p, 0, 0),
        Outcome::Perform(Action::SemaphoreDown { sem_id: 0, record: true })
    );
    semaphore_down_finish(&mut p, 0, 0, true);
    assert_eq!(
        sys_semaphore_down(&mut p, 1, 0),
        Outcome::Perform(Action::SemaphoreDown { sem_id: 0, record: true })
    );
    semaphore_down_finish(&mut p, 1, 0, true);
    // Both units are held; a third down waits, but each holder can finish.
    assert_eq!(
        sys_semaphore_down(&mut p, 0, 0),
        Outcome::Perform(Action::SemaphoreDown { sem_id: 0, record: true })
    );
}

#[test]
fn down_then_up_gives_the_counters_back() {
    let mut p = process(1, 0, 1);
    let before_request = counters(&p, 0).request.clone();
    let before_allocation = counters(&p, 0).allocation.clone();
    let out = sys_semaphore_down(&mut p, 0, 0);
    assert_eq!(out, Outcome::Perform(Action::SemaphoreDown { sem_id: 0, record: true }));
    semaphore_down_finish(&mut p, 0, 0, true);
    assert_eq!(sys_semaphore_up(&mut p, 0, 0), Outcome::Perform(Action::SemaphoreUp { sem_id: 0 }));
    assert_eq!(counters(&p, 0).request, before_request);
    assert_eq!(counters(&p, 0).allocation, before_allocation);
}

#[test]
fn condvar_calls_hand_over_to_the_kernel() {
    let mut p = process(1, 1, 0);
    let c = sys_condvar_create(&mut p);
    assert_eq!(c, 0);
    assert_eq!(sys_condvar_signal(&p, 0), Outcome::Perform(Action::CondvarSignal { condvar_id: 0 }));
    assert_eq!(
        sys_condvar_wait(&p, 0, 0),
        Outcome::Perform(Action::CondvarWait { condvar_id: 0, mutex_id: 0 })
    );
}

#[test]
fn gone_threads_count_as_finished() {
    let mut p = process(2, 1, 0);
    p.tasks[1] = None;
    assert_eq!(mutex_deadlock_detect(&p), 0);
    assert_eq!(
        sys_mutex_lock(&mut p, 0, 0),
        Outcome::Perform(Action::LockMutex { mutex_id: 0, record: true })
    );
}

#[test]
fn safety_check_on_matrices() {
    // Everything free, nothing asked: safe.
    assert!(is_safe_state(&vec![1, 1], &vec![vec![0, 0], vec![0, 0]], &vec![vec![0, 0], vec![0, 0]]));
    // No threads at all: safe.
    assert!(is_safe_state(&vec![3], &vec![], &vec![]));
    // Each holds what the other waits for: unsafe.
    assert!(!is_safe_state(&vec![1, 1], &vec![vec![1, 0], vec![0, 1]], &vec![vec![0, 1], vec![1, 0]]));
    // The classic banker's example: safe through threads 1, 3, 4, 0, 2.
    let total = vec![10, 5, 7];
    let allocation = vec![vec![0, 1, 0], vec![2, 0, 0], vec![3, 0, 2], vec![2, 1, 1], vec![0, 0, 2]];
    let need = vec![vec![7, 4, 3], vec![1, 2, 2], vec![6, 0, 0], vec![0, 1, 1], vec![4, 3, 1]];
    assert!(is_safe_state(&total, &allocation, &need));
    // Ask for more than can ever be free: unsafe.
    let need2 = vec![vec![7, 4, 3], vec![1, 2, 2], vec![6, 0, 0], vec![0, 1, 1], vec![4, 6, 1]];
    assert!(!is_safe_state(&total, &allocation, &need2));
    // A thread that must wait for a later one in id order is still fine.
    assert!(is_safe_state(&vec![1], &vec![vec![0], vec![1]], &vec![vec![1], vec![0]]));
}

#[test]
fn check_readiness_follows_the_counters() {
    let mut p = process(2, 2, 2);
    assert!(mutex_check_ready(&p));
    assert!(semaphore_check_ready(&p));
    // A mutex booked as held twice in all cannot be checked.
    p.tasks[0].as_mut().unwrap().mutex_allocation[1] = 1;
    assert!(mutex_check_ready(&p));
    p.tasks[1].as_mut().unwrap().mutex_allocation[1] = 1;
    assert!(!mutex_check_ready(&p));
    // A semaphore with one unit held twice cannot be checked either.
    p.tasks[0].as_mut().unwrap().allocation[0] = 2;
    assert!(!semaphore_check_ready(&p));
    p.semaphore_list[0] = Some(Semaphore { all_count: 2 });
    assert!(semaphore_check_ready(&p));
    // A thread without a counter for every semaphore cannot be checked.
    p.tasks[1].as_mut().unwrap().request = vec![0; 1];
    assert!(!semaphore_check_ready(&p));
    // Counters near the top of usize do not wrap the sum.
    let mut q = process(2, 0, 1);
    q.semaphore_list[0] = Some(Semaphore { all_count: usize::MAX });
    q.tasks[0].as_mut().unwrap().allocation[0] = usize::MAX;
    q.tasks[1].as_mut().unwrap().allocation[0] = 1;
    assert!(!semaphore_check_ready(&q));
}
