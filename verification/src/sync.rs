//! Synchronisation calls: sleep, mutexes, semaphores and condition
//! variables, with deadlock detection before a thread blocks on a mutex or
//! a semaphore.
use vstd::prelude::*;

use crate::outcome::{Action, Outcome};
use crate::safety::{
    col_sum,
    columns_within,
    is_safe,
    is_safe_state,
    lemma_all_wait_on_held_is_unsafe,
    lemma_entry_le_col_sum,
    lemma_over_total_is_unsafe,
    rows_have_len,
    waits_on_held,
};
use crate::state::{
    counter_rows,
    counters_cover,
    is_first_free,
    lemma_counter_rows_entries,
    place_in_free_slot,
    placed_at,
    Condvar,
    Counter,
    MutexKind,
    ProcessState,
    ProcessView,
    Semaphore,
};

verus! {

/// What a refused lock or down request returns.
pub const DEADLOCK: isize = -0xDEAD;

/// Each mutex is one unit of a resource.
pub open spec fn mutex_totals(v: ProcessView) -> Seq<usize> {
    Seq::new(v.mutexes.len(), |j: int| 1usize)
}

/// Each semaphore is as many units as it was created with; a free slot is
/// none.
pub open spec fn semaphore_totals(v: ProcessView) -> Seq<usize> {
    Seq::new(
        v.semaphores.len(),
        |j: int|
            match v.semaphores[j] {
                Some(s) => s.all_count,
                None => 0usize,
            },
    )
}

/// The mutexes that the threads hold, one row per thread.
pub open spec fn mutex_allocation_rows(v: ProcessView) -> Seq<Seq<usize>> {
    counter_rows(v, Counter::MutexAllocation, v.mutexes.len() as int)
}

/// The mutexes that the threads wait for, one row per thread.
pub open spec fn mutex_request_rows(v: ProcessView) -> Seq<Seq<usize>> {
    counter_rows(v, Counter::MutexRequest, v.mutexes.len() as int)
}

/// The semaphore units that the threads hold, one row per thread.
pub open spec fn semaphore_allocation_rows(v: ProcessView) -> Seq<Seq<usize>> {
    counter_rows(v, Counter::Allocation, v.semaphores.len() as int)
}

/// The semaphore units that the threads wait for, one row per thread.
pub open spec fn semaphore_request_rows(v: ProcessView) -> Seq<Seq<usize>> {
    counter_rows(v, Counter::Request, v.semaphores.len() as int)
}

/// The mutex check can run: every thread has a counter for each mutex, and
/// no mutex is held more than once in all.
pub open spec fn mutex_check_defined(v: ProcessView) -> bool {
    let m = v.mutexes.len() as int;
    &&& counters_cover(v, Counter::MutexRequest, m)
    &&& counters_cover(v, Counter::MutexAllocation, m)
    &&& forall|j: int| 0 <= j < m ==> #[trigger] col_sum(mutex_allocation_rows(v), j) <= 1
}

/// The semaphore check can run: every thread has a counter for each
/// semaphore, and no semaphore has more units held than it was created with.
pub open spec fn semaphore_check_defined(v: ProcessView) -> bool {
    let m = v.semaphores.len() as int;
    &&& counters_cover(v, Counter::Request, m)
    &&& counters_cover(v, Counter::Allocation, m)
    &&& forall|j: int|
        0 <= j < m ==> #[trigger] col_sum(semaphore_allocation_rows(v), j)
            <= semaphore_totals(v)[j]
}

/// Every thread can get the mutexes it waits for, in some order.
pub open spec fn mutexes_safe(v: ProcessView) -> bool {
    is_safe(mutex_totals(v), mutex_allocation_rows(v), mutex_request_rows(v))
}

/// Every thread can get the semaphore units it waits for, in some order.
pub open spec fn semaphores_safe(v: ProcessView) -> bool {
    is_safe(semaphore_totals(v), semaphore_allocation_rows(v), semaphore_request_rows(v))
}

/// The process after thread `tid` asks for one more of entry `id` of
/// counter `which`.
pub open spec fn asked(v: ProcessView, tid: int, which: Counter, id: int) -> ProcessView {
    v.with_task_entry(tid, which, id, (v.entry(tid, which, id) + 1) as usize)
}

proof fn lemma_rows_shape(v: ProcessView, which: Counter, m: int)
    requires
        0 <= m,
        counters_cover(v, which, m),
    ensures
        counter_rows(v, which, m).len() == v.tasks.len(),
        rows_have_len(counter_rows(v, which, m), m),
{
    assert forall|i: int| 0 <= i < counter_rows(v, which, m).len() implies #[trigger] counter_rows(
        v,
        which,
        m,
    )[i].len() == m by {
        if v.tasks[i] is Some {
            assert(v.has_task(i));
        }
    }
}

/// Changing one thread's counter `which` leaves the rows of any other
/// counter as they were.
proof fn lemma_rows_other_counter(
    v: ProcessView,
    tid: int,
    which: Counter,
    id: int,
    value: usize,
    other: Counter,
    m: int,
)
    requires
        v.has_task(tid),
        which != other,
    ensures
        counter_rows(v.with_task_entry(tid, which, id, value), other, m) == counter_rows(
            v,
            other,
            m,
        ),
{
    let w = v.with_task_entry(tid, which, id, value);
    assert(w.task(tid).counter(other) == v.task(tid).counter(other));
    assert(counter_rows(w, other, m) =~= counter_rows(v, other, m));
}

/// Asking for one more and then taking it back gives the process back.
proof fn lemma_ask_undo(v: ProcessView, tid: int, which: Counter, id: int)
    requires
        v.has_entry(tid, which, id),
        v.entry(tid, which, id) < usize::MAX,
    ensures
        asked(v, tid, which, id).with_task_entry(tid, which, id, v.entry(tid, which, id)) == v,
{
    let w = asked(v, tid, which, id).with_task_entry(tid, which, id, v.entry(tid, which, id));
    assert(w.task(tid).counter(which) =~= v.task(tid).counter(which));
    assert(w.task(tid) =~= v.task(tid));
    assert(w.tasks =~= v.tasks);
    assert(w =~= v);
}

/// Changing an entry keeps the length of every counter of every thread.
proof fn lemma_entry_keeps_cover(
    v: ProcessView,
    tid: int,
    which: Counter,
    id: int,
    value: usize,
    other: Counter,
    m: int,
)
    requires
        v.has_entry(tid, which, id),
        counters_cover(v, other, m),
    ensures
        counters_cover(v.with_task_entry(tid, which, id, value), other, m),
{
    let w = v.with_task_entry(tid, which, id, value);
    assert forall|i: int| #[trigger] w.has_task(i) implies w.task(i).counter(other).len() >= m by {
        assert(v.has_task(i));
        if i == tid {
            let t = v.task(tid);
            assert(w.task(i) == t.with_entry(which, id, value));
            assert(t.with_entry(which, id, value).counter(other).len() == t.counter(other).len());
        }
    }
}

/// Asking for one more of a mutex keeps the mutex check defined.
proof fn lemma_ask_keeps_mutex_check(v: ProcessView, tid: int, id: int)
    requires
        v.has_entry(tid, Counter::MutexRequest, id),
        v.entry(tid, Counter::MutexRequest, id) < usize::MAX,
        mutex_check_defined(v),
    ensures
        mutex_check_defined(asked(v, tid, Counter::MutexRequest, id)),
{
    let value = (v.entry(tid, Counter::MutexRequest, id) + 1) as usize;
    let m = v.mutexes.len() as int;
    lemma_entry_keeps_cover(v, tid, Counter::MutexRequest, id, value, Counter::MutexRequest, m);
    lemma_entry_keeps_cover(v, tid, Counter::MutexRequest, id, value, Counter::MutexAllocation, m);
    lemma_rows_other_counter(v, tid, Counter::MutexRequest, id, value, Counter::MutexAllocation, m);
    let w = asked(v, tid, Counter::MutexRequest, id);
    assert(mutex_allocation_rows(w) == mutex_allocation_rows(v));
}

/// Asking for one more unit of a semaphore keeps the semaphore check defined.
proof fn lemma_ask_keeps_semaphore_check(v: ProcessView, tid: int, id: int)
    requires
        v.has_entry(tid, Counter::Request, id),
        v.entry(tid, Counter::Request, id) < usize::MAX,
        semaphore_check_defined(v),
    ensures
        semaphore_check_defined(asked(v, tid, Counter::Request, id)),
{
    let value = (v.entry(tid, Counter::Request, id) + 1) as usize;
    let m = v.semaphores.len() as int;
    let w = asked(v, tid, Counter::Request, id);
    lemma_entry_keeps_cover(v, tid, Counter::Request, id, value, Counter::Request, m);
    lemma_entry_keeps_cover(v, tid, Counter::Request, id, value, Counter::Allocation, m);
    lemma_rows_other_counter(v, tid, Counter::Request, id, value, Counter::Allocation, m);
    assert(semaphore_totals(w) == semaphore_totals(v));
    assert(semaphore_allocation_rows(w) == semaphore_allocation_rows(v));
}

/// A mutex lock that goes through, asked for and then booked, leaves the
/// thread's request for the mutex as it was and adds one to its holding.
pub proof fn lemma_lock_then_finish(v: ProcessView, tid: int, mutex_id: int)
    requires
        v.has_entry(tid, Counter::MutexRequest, mutex_id),
        v.entry(tid, Counter::MutexRequest, mutex_id) < usize::MAX,
        v.has_entry(tid, Counter::MutexAllocation, mutex_id),
        v.entry(tid, Counter::MutexAllocation, mutex_id) < usize::MAX,
    ensures
        ({
            let a = asked(v, tid, Counter::MutexRequest, mutex_id);
            a.with_task_entry(
                tid,
                Counter::MutexRequest,
                mutex_id,
                (a.entry(tid, Counter::MutexRequest, mutex_id) - 1) as usize,
            ).with_task_entry(
                tid,
                Counter::MutexAllocation,
                mutex_id,
                (a.entry(tid, Counter::MutexAllocation, mutex_id) + 1) as usize,
            )
        }) == v.with_task_entry(
            tid,
            Counter::MutexAllocation,
            mutex_id,
            (v.entry(tid, Counter::MutexAllocation, mutex_id) + 1) as usize,
        ),
{
    let a = asked(v, tid, Counter::MutexRequest, mutex_id);
    let b = a.with_task_entry(
        tid,
        Counter::MutexRequest,
        mutex_id,
        (a.entry(tid, Counter::MutexRequest, mutex_id) - 1) as usize,
    );
    let c = b.with_task_entry(
        tid,
        Counter::MutexAllocation,
        mutex_id,
        (a.entry(tid, Counter::MutexAllocation, mutex_id) + 1) as usize,
    );
    let d = v.with_task_entry(
        tid,
        Counter::MutexAllocation,
        mutex_id,
        (v.entry(tid, Counter::MutexAllocation, mutex_id) + 1) as usize,
    );
    assert(c.task(tid).mutex_request =~= d.task(tid).mutex_request);
    assert(c.task(tid).mutex_allocation =~= d.task(tid).mutex_allocation);
    assert(c.task(tid) =~= d.task(tid));
    assert(c.tasks =~= d.tasks);
    assert(c =~= d);
}

/// A semaphore unit taken with detection on (asked for, then booked) and
/// released again gives the process back as it was.
pub proof fn lemma_down_then_up_restores(v: ProcessView, tid: int, sem_id: int)
    requires
        v.has_entry(tid, Counter::Request, sem_id),
        v.entry(tid, Counter::Request, sem_id) < usize::MAX,
        v.has_entry(tid, Counter::Allocation, sem_id),
        v.entry(tid, Counter::Allocation, sem_id) < usize::MAX,
    ensures
        ({
            let a = asked(v, tid, Counter::Request, sem_id);
            let b = a.with_task_entry(
                tid,
                Counter::Request,
                sem_id,
                (a.entry(tid, Counter::Request, sem_id) - 1) as usize,
            ).with_task_entry(
                tid,
                Counter::Allocation,
                sem_id,
                (a.entry(tid, Counter::Allocation, sem_id) + 1) as usize,
            );
            b.with_task_entry(
                tid,
                Counter::Allocation,
                sem_id,
                (b.entry(tid, Counter::Allocation, sem_id) - 1) as usize,
            )
        }) == v,
{
    let a = asked(v, tid, Counter::Request, sem_id);
    let b = a.with_task_entry(
        tid,
        Counter::Request,
        sem_id,
        (a.entry(tid, Counter::Request, sem_id) - 1) as usize,
    ).with_task_entry(
        tid,
        Counter::Allocation,
        sem_id,
        (a.entry(tid, Counter::Allocation, sem_id) + 1) as usize,
    );
    let c = b.with_task_entry(
        tid,
        Counter::Allocation,
        sem_id,
        (b.entry(tid, Counter::Allocation, sem_id) - 1) as usize,
    );
    assert(c.task(tid).request =~= v.task(tid).request);
    assert(c.task(tid).allocation =~= v.task(tid).allocation);
    assert(c.task(tid) =~= v.task(tid));
    assert(c.tasks =~= v.tasks);
    assert(c =~= v);
}

/// Every mutex, of either kind and at every id, counts as one unit.
pub proof fn lemma_mutex_totals(v: ProcessView)
    ensures
        mutex_totals(v).len() == v.mutexes.len(),
        forall|j: int| 0 <= j < v.mutexes.len() ==> #[trigger] mutex_totals(v)[j] == 1,
{
}

/// A semaphore counts as exactly the units it was created with, and a free
/// slot as none.
pub proof fn lemma_semaphore_totals(v: ProcessView)
    ensures
        semaphore_totals(v).len() == v.semaphores.len(),
        forall|j: int|
            0 <= j < v.semaphores.len() ==> #[trigger] semaphore_totals(v)[j] == match v.semaphores[j] {
                Some(s) => s.all_count,
                None => 0usize,
            },
{
}

/// The mutex check judges one unit per mutex, the mutexes that the threads
/// hold, and the mutexes that they wait for.
pub proof fn lemma_mutex_safety_inputs(v: ProcessView)
    ensures
        mutexes_safe(v) == is_safe(
            Seq::new(v.mutexes.len(), |j: int| 1usize),
            counter_rows(v, Counter::MutexAllocation, v.mutexes.len() as int),
            counter_rows(v, Counter::MutexRequest, v.mutexes.len() as int),
        ),
{
    assert(mutex_totals(v) =~= Seq::new(v.mutexes.len(), |j: int| 1usize));
}

/// The semaphore check judges each semaphore's units as created, the units
/// that the threads hold, and the units that they wait for.
pub proof fn lemma_semaphore_safety_inputs(v: ProcessView)
    ensures
        semaphores_safe(v) == is_safe(
            Seq::new(
                v.semaphores.len(),
                |j: int|
                    match v.semaphores[j] {
                        Some(s) => s.all_count,
                        None => 0usize,
                    },
            ),
            counter_rows(v, Counter::Allocation, v.semaphores.len() as int),
            counter_rows(v, Counter::Request, v.semaphores.len() as int),
        ),
{
    assert(semaphore_totals(v) =~= Seq::new(
        v.semaphores.len(),
        |j: int|
            match v.semaphores[j] {
                Some(s) => s.all_count,
                None => 0usize,
            },
    ));
}

/// `sys_mutex_create(true)` makes a blocking mutex, `sys_mutex_create(false)`
/// a spinning one.
pub proof fn lemma_mutex_kind_of()
    ensures
        mutex_kind_of(true) == MutexKind::Blocking,
        mutex_kind_of(false) == MutexKind::Spin,
{
}

/// Asking raises the asked entry by one and leaves every other entry, the
/// thread list and the object lists as they were.
pub proof fn lemma_asked_entries(v: ProcessView, tid: int, which: Counter, id: int)
    requires
        v.has_entry(tid, which, id),
        v.entry(tid, which, id) < usize::MAX,
    ensures
        asked(v, tid, which, id).has_entry(tid, which, id),
        asked(v, tid, which, id).entry(tid, which, id) == v.entry(tid, which, id) + 1,
        asked(v, tid, which, id).tasks.len() == v.tasks.len(),
        asked(v, tid, which, id).mutexes == v.mutexes,
        asked(v, tid, which, id).semaphores == v.semaphores,
        asked(v, tid, which, id).condvars == v.condvars,
        asked(v, tid, which, id).deadlock_detect == v.deadlock_detect,
        forall|t: int| 0 <= t < v.tasks.len() ==> (#[trigger] asked(v, tid, which, id).has_task(t) <==> v.has_task(t)),
        forall|t: int, w: Counter, k: int|
            v.has_entry(t, w, k) && !(t == tid && w == which && k == id) ==> {
                &&& #[trigger] asked(v, tid, which, id).has_entry(t, w, k)
                &&& asked(v, tid, which, id).entry(t, w, k) == v.entry(t, w, k)
            },
{
    let a = asked(v, tid, which, id);
    let value = (v.entry(tid, which, id) + 1) as usize;
    assert forall|t: int, w: Counter, k: int|
        v.has_entry(t, w, k) && !(t == tid && w == which && k == id) implies {
        &&& #[trigger] a.has_entry(t, w, k)
        &&& a.entry(t, w, k) == v.entry(t, w, k)
    } by {
        if t == tid {
            assert(a.task(t) == v.task(tid).with_entry(which, id, value));
        }
    }
}

/// Thread `i` waits for a mutex that some thread holds.
pub open spec fn waits_for_held_mutex(v: ProcessView, i: int) -> bool {
    exists|j: int, k: int|
        0 <= j < v.mutexes.len() && v.has_task(k) && v.task(i).mutex_request[j] > 0
            && #[trigger] v.task(k).mutex_allocation[j] > 0
}

/// Thread `i` waits for a semaphore all of whose units are held.
pub open spec fn waits_for_spent_semaphore(v: ProcessView, i: int) -> bool {
    exists|j: int|
        0 <= j < v.semaphores.len() && v.semaphores[j] is Some && v.task(i).request[j] > 0
            && #[trigger] col_sum(semaphore_allocation_rows(v), j) == v.semaphores[j]->0.all_count
}

/// When every thread waits for a mutex that another holds, the mutexes are
/// in deadlock: no order lets every thread finish.
pub proof fn lemma_mutex_wait_cycle_unsafe(v: ProcessView)
    requires
        mutex_check_defined(v),
        v.tasks.len() > 0,
        forall|i: int| 0 <= i < v.tasks.len() ==> v.has_task(i) && #[trigger] waits_for_held_mutex(v, i),
    ensures
        !mutexes_safe(v),
{
    let m = v.mutexes.len() as int;
    let total = mutex_totals(v);
    let a = mutex_allocation_rows(v);
    let r = mutex_request_rows(v);
    lemma_rows_shape(v, Counter::MutexAllocation, m);
    lemma_rows_shape(v, Counter::MutexRequest, m);
    lemma_counter_rows_entries(v, Counter::MutexAllocation, m);
    lemma_counter_rows_entries(v, Counter::MutexRequest, m);
    assert forall|i: int| 0 <= i < a.len() implies #[trigger] waits_on_held(total, a, r, i) by {
        assert(waits_for_held_mutex(v, i));
        let (j, k) = choose|j: int, k: int|
            0 <= j < v.mutexes.len() && v.has_task(k) && v.task(i).mutex_request[j] > 0
                && #[trigger] v.task(k).mutex_allocation[j] > 0;
        assert(a[k][j] == v.task(k).mutex_allocation[j]);
        assert(r[i][j] == v.task(i).mutex_request[j]);
        lemma_entry_le_col_sum(a, k, j);
        assert(col_sum(a, j) <= 1);
        assert(col_sum(a, j) == total[j]);
    }
    assert forall|j: int| 0 <= j < total.len() implies #[trigger] col_sum(a, j) <= total[j] by {
        assert(col_sum(mutex_allocation_rows(v), j) <= 1);
    }
    lemma_all_wait_on_held_is_unsafe(total, a, r);
}

/// When every thread waits for a semaphore whose units are all held, the
/// semaphores are in deadlock: no order lets every thread finish.
pub proof fn lemma_semaphore_wait_cycle_unsafe(v: ProcessView)
    requires
        semaphore_check_defined(v),
        v.tasks.len() > 0,
        forall|i: int|
            0 <= i < v.tasks.len() ==> v.has_task(i) && #[trigger] waits_for_spent_semaphore(v, i),
    ensures
        !semaphores_safe(v),
{
    let m = v.semaphores.len() as int;
    let total = semaphore_totals(v);
    let a = semaphore_allocation_rows(v);
    let r = semaphore_request_rows(v);
    lemma_rows_shape(v, Counter::Allocation, m);
    lemma_rows_shape(v, Counter::Request, m);
    lemma_counter_rows_entries(v, Counter::Request, m);
    assert forall|i: int| 0 <= i < a.len() implies #[trigger] waits_on_held(total, a, r, i) by {
        assert(waits_for_spent_semaphore(v, i));
        let j = choose|j: int|
            0 <= j < v.semaphores.len() && v.semaphores[j] is Some && v.task(i).request[j] > 0
                && #[trigger] col_sum(semaphore_allocation_rows(v), j)
                == v.semaphores[j]->0.all_count;
        assert(r[i][j] == v.task(i).request[j]);
        assert(col_sum(a, j) == total[j]);
    }
    assert forall|j: int| 0 <= j < total.len() implies #[trigger] col_sum(a, j) <= total[j] by {
        assert(col_sum(semaphore_allocation_rows(v), j) <= semaphore_totals(v)[j]);
    }
    lemma_all_wait_on_held_is_unsafe(total, a, r);
}

/// A thread that waits for a mutex more than once can never be served, so
/// the mutexes are not safe.
pub proof fn lemma_mutex_overask_unsafe(v: ProcessView, i: int, j: int)
    requires
        mutex_check_defined(v),
        v.has_task(i),
        0 <= j < v.mutexes.len(),
        v.task(i).mutex_request[j] > 1,
    ensures
        !mutexes_safe(v),
{
    let m = v.mutexes.len() as int;
    let total = mutex_totals(v);
    let a = mutex_allocation_rows(v);
    let r = mutex_request_rows(v);
    lemma_rows_shape(v, Counter::MutexAllocation, m);
    lemma_rows_shape(v, Counter::MutexRequest, m);
    lemma_counter_rows_entries(v, Counter::MutexRequest, m);
    assert(r[i][j] == v.task(i).mutex_request[j]);
    assert forall|jj: int| 0 <= jj < total.len() implies #[trigger] col_sum(a, jj) <= total[jj] by {
        assert(col_sum(mutex_allocation_rows(v), jj) <= 1);
    }
    lemma_over_total_is_unsafe(total, a, r, i, j);
}

/// A thread that waits for more units of a semaphore than it was created
/// with can never be served, so the semaphores are not safe.
pub proof fn lemma_semaphore_overask_unsafe(v: ProcessView, i: int, j: int, s: Semaphore)
    requires
        semaphore_check_defined(v),
        v.has_task(i),
        0 <= j < v.semaphores.len(),
        v.semaphores[j] == Some(s),
        v.task(i).request[j] > s.all_count,
    ensures
        !semaphores_safe(v),
{
    let m = v.semaphores.len() as int;
    let total = semaphore_totals(v);
    let a = semaphore_allocation_rows(v);
    let r = semaphore_request_rows(v);
    lemma_rows_shape(v, Counter::Allocation, m);
    lemma_rows_shape(v, Counter::Request, m);
    lemma_counter_rows_entries(v, Counter::Request, m);
    assert(r[i][j] == v.task(i).request[j]);
    assert forall|jj: int| 0 <= jj < total.len() implies #[trigger] col_sum(a, jj) <= total[jj] by {
        assert(col_sum(semaphore_allocation_rows(v), jj) <= semaphore_totals(v)[jj]);
    }
    lemma_over_total_is_unsafe(total, a, r, i, j);
}

/// One unit for each mutex.
fn mutex_total_vec(process: &ProcessState) -> (total: Vec<usize>)
    ensures
        total@ == mutex_totals(process@),
{
    let mutex_len = process.mutex_list.len();
    let mut total: Vec<usize> = Vec::new();
    let mut j: usize = 0;
    while j < mutex_len
        invariant
            j <= mutex_len,
            mutex_len == process@.mutexes.len(),
            total@ == Seq::new(j as nat, |k: int| 1usize),
        decreases mutex_len - j,
    {
        total.push(1);
        j = j + 1;
        assert(total@ =~= Seq::new(j as nat, |k: int| 1usize));
    }
    total
}

/// The units each semaphore was created with; none for a free slot.
fn semaphore_total_vec(process: &ProcessState) -> (total: Vec<usize>)
    ensures
        total@ == semaphore_totals(process@),
{
    let semaphore_len = process.semaphore_list.len();
    let mut total: Vec<usize> = Vec::new();
    let mut j: usize = 0;
    while j < semaphore_len
        invariant
            j <= semaphore_len,
            semaphore_len == process@.semaphores.len(),
            total@ == semaphore_totals(process@).take(j as int),
        decreases semaphore_len - j,
    {
        let units = match &process.semaphore_list[j] {
            Some(semaphore) => semaphore.all_count,
            None => 0,
        };
        total.push(units);
        j = j + 1;
        assert(total@ =~= semaphore_totals(process@).take(j as int));
    }
    assert(total@ =~= semaphore_totals(process@));
    total
}

/// Whether [`mutex_deadlock_detect`] can run on the process: every thread
/// has a counter for each mutex, and no mutex is held more than once in all.
pub fn mutex_check_ready(process: &ProcessState) -> (ready: bool)
    ensures
        ready == mutex_check_defined(process@),
{
    let mutex_len = process.mutex_list.len();
    if !process.counters_reach(Counter::MutexRequest, mutex_len) {
        return false;
    }
    if !process.counters_reach(Counter::MutexAllocation, mutex_len) {
        return false;
    }
    let total = mutex_total_vec(process);
    let allocation = process.counter_matrix(Counter::MutexAllocation, mutex_len);
    proof {
        lemma_rows_shape(process@, Counter::MutexAllocation, mutex_len as int);
    }
    let ready = columns_within(&allocation, &total);
    proof {
        if ready {
            assert forall|j: int| 0 <= j < mutex_len implies #[trigger] col_sum(
                mutex_allocation_rows(process@),
                j,
            ) <= 1 by {
                assert(col_sum(allocation.deep_view(), j) <= total@[j]);
            }
        } else {
            let j = choose|j: int|
                0 <= j < total@.len() && !(col_sum(allocation.deep_view(), j) <= total@[j]);
            assert(!(col_sum(mutex_allocation_rows(process@), j) <= 1));
        }
    }
    ready
}

/// Whether [`semaphore_deadlock_detect`] can run on the process: every
/// thread has a counter for each semaphore, and no semaphore has more units
/// held than it was created with.
pub fn semaphore_check_ready(process: &ProcessState) -> (ready: bool)
    ensures
        ready == semaphore_check_defined(process@),
{
    let semaphore_len = process.semaphore_list.len();
    if !process.counters_reach(Counter::Request, semaphore_len) {
        return false;
    }
    if !process.counters_reach(Counter::Allocation, semaphore_len) {
        return false;
    }
    let total = semaphore_total_vec(process);
    let allocation = process.counter_matrix(Counter::Allocation, semaphore_len);
    proof {
        lemma_rows_shape(process@, Counter::Allocation, semaphore_len as int);
    }
    let ready = columns_within(&allocation, &total);
    proof {
        if ready {
            assert forall|j: int| 0 <= j < semaphore_len implies #[trigger] col_sum(
                semaphore_allocation_rows(process@),
                j,
            ) <= semaphore_totals(process@)[j] by {
                assert(col_sum(allocation.deep_view(), j) <= total@[j]);
            }
        } else {
            let j = choose|j: int|
                0 <= j < total@.len() && !(col_sum(allocation.deep_view(), j) <= total@[j]);
            assert(!(col_sum(semaphore_allocation_rows(process@), j) <= semaphore_totals(
                process@,
            )[j]));
        }
    }
    ready
}

/// Checks the threads' mutexes for deadlock: 0 where every thread can
/// get the mutexes it waits for in some order, -1 where not.
pub fn mutex_deadlock_detect(process: &ProcessState) -> (ret: isize)
    requires
        mutex_check_defined(process@),
    ensures
        ret == if mutexes_safe(process@) {
            0isize
        } else {
            -1isize
        },
{
    let mutex_len = process.mutex_list.len();
    let total = mutex_total_vec(process);
    let allocation = process.counter_matrix(Counter::MutexAllocation, mutex_len);
    let request = process.counter_matrix(Counter::MutexRequest, mutex_len);
    proof {
        lemma_rows_shape(process@, Counter::MutexAllocation, mutex_len as int);
        lemma_rows_shape(process@, Counter::MutexRequest, mutex_len as int);
        assert(total@ == mutex_totals(process@));
        assert forall|j: int| 0 <= j < total@.len() implies #[trigger] col_sum(
            allocation.deep_view(),
            j,
        ) <= total@[j] by {
            assert(col_sum(mutex_allocation_rows(process@), j) <= 1);
        }
    }
    if is_safe_state(&total, &allocation, &request) {
        0
    } else {
        -1
    }
}

/// Checks the threads' semaphores for deadlock: 0 where every thread
/// can get the units it waits for in some order, -1 where not.
pub fn semaphore_deadlock_detect(process: &ProcessState) -> (ret: isize)
    requires
        semaphore_check_defined(process@),
    ensures
        ret == if semaphores_safe(process@) {
            0isize
        } else {
            -1isize
        },
{
    let semaphore_len = process.semaphore_list.len();
    let total = semaphore_total_vec(process);
    let allocation = process.counter_matrix(Counter::Allocation, semaphore_len);
    let request = process.counter_matrix(Counter::Request, semaphore_len);
    proof {
        lemma_rows_shape(process@, Counter::Allocation, semaphore_len as int);
        lemma_rows_shape(process@, Counter::Request, semaphore_len as int);
        assert(total@ =~= semaphore_totals(process@));
        assert forall|j: int| 0 <= j < total@.len() implies #[trigger] col_sum(
            allocation.deep_view(),
            j,
        ) <= total@[j] by {
            assert(col_sum(semaphore_allocation_rows(process@), j) <= semaphore_totals(process@)[j]);
        }
    }
    if is_safe_state(&total, &allocation, &request) {
        0
    } else {
        -1
    }
}

/// Locks mutex `mutex_id` for thread `tid`. With deadlock detection on,
/// the thread first asks for the mutex; where no order would then let
/// every thread get what it waits for, the request is withdrawn and the
/// call returns -0xDEAD. Otherwise the kernel locks the mutex.
pub fn sys_mutex_lock(process: &mut ProcessState, tid: usize, mutex_id: usize) -> (out: Outcome)
    requires
        mutex_id < old(process)@.mutexes.len(),
        old(process)@.mutexes[mutex_id as int] is Some,
        old(process)@.deadlock_detect ==> {
            &&& old(process)@.has_entry(tid as int, Counter::MutexRequest, mutex_id as int)
            &&& old(process)@.entry(tid as int, Counter::MutexRequest, mutex_id as int)
                < usize::MAX
            &&& mutex_check_defined(old(process)@)
        },
    ensures
        !old(process)@.deadlock_detect ==> {
            &&& final(process)@ == old(process)@
            &&& out == Outcome::Perform(Action::LockMutex { mutex_id, record: false })
        },
        old(process)@.deadlock_detect && mutexes_safe(
            asked(old(process)@, tid as int, Counter::MutexRequest, mutex_id as int),
        ) ==> {
            &&& final(process)@ == asked(
                old(process)@,
                tid as int,
                Counter::MutexRequest,
                mutex_id as int,
            )
            &&& out == Outcome::Perform(Action::LockMutex { mutex_id, record: true })
        },
        old(process)@.deadlock_detect && !mutexes_safe(
            asked(old(process)@, tid as int, Counter::MutexRequest, mutex_id as int),
        ) ==> {
            &&& final(process)@ == old(process)@
            &&& out == Outcome::Return(DEADLOCK)
        },
{
    let deadlock_detect = process.enable_deadlock_detect;
    if deadlock_detect == true {
        let ghost before = process@;
        process.step_entry(tid, Counter::MutexRequest, mutex_id, true);
        proof {
            lemma_ask_keeps_mutex_check(before, tid as int, mutex_id as int);
        }
        if mutex_deadlock_detect(process) == -1 {
            process.step_entry(tid, Counter::MutexRequest, mutex_id, false);
            proof {
                lemma_ask_undo(before, tid as int, Counter::MutexRequest, mutex_id as int);
            }
            return Outcome::Return(DEADLOCK);
        }
        Outcome::Perform(Action::LockMutex { mutex_id, record: true })
    } else {
        Outcome::Perform(Action::LockMutex { mutex_id, record: false })
    }
}

/// Books a mutex lock once the kernel holds it for thread `tid`: where
/// the lock was asked for with detection on, the request turns into
/// a holding. Returns 0.
pub fn mutex_lock_finish(process: &mut ProcessState, tid: usize, mutex_id: usize, record: bool) -> (ret: isize)
    requires
        record ==> {
            &&& old(process)@.has_entry(tid as int, Counter::MutexRequest, mutex_id as int)
            &&& old(process)@.entry(tid as int, Counter::MutexRequest, mutex_id as int) > 0
            &&& old(process)@.has_entry(tid as int, Counter::MutexAllocation, mutex_id as int)
            &&& old(process)@.entry(tid as int, Counter::MutexAllocation, mutex_id as int)
                < usize::MAX
        },
    ensures
        ret == 0,
        !record ==> final(process)@ == old(process)@,
        record ==> final(process)@ == old(process)@.with_task_entry(
            tid as int,
            Counter::MutexRequest,
            mutex_id as int,
            (old(process)@.entry(tid as int, Counter::MutexRequest, mutex_id as int) - 1) as usize,
        ).with_task_entry(
            tid as int,
            Counter::MutexAllocation,
            mutex_id as int,
            (old(process)@.entry(tid as int, Counter::MutexAllocation, mutex_id as int)
                + 1) as usize,
        ),
{
    if record {
        process.step_entry(tid, Counter::MutexRequest, mutex_id, false);
        process.step_entry(tid, Counter::MutexAllocation, mutex_id, true);
    }
    0
}

/// Unlocks mutex `mutex_id` for thread `tid`. With deadlock detection
/// on, this call takes one unit off entry `mutex_id` of the thread's
/// semaphore holding counter, not off the mutex holding that
/// `mutex_lock_finish` raised. The kernel then unlocks the mutex.
pub fn sys_mutex_unlock(process: &mut ProcessState, tid: usize, mutex_id: usize) -> (out: Outcome)
    requires
        mutex_id < old(process)@.mutexes.len(),
        old(process)@.mutexes[mutex_id as int] is Some,
        old(process)@.deadlock_detect ==> {
            &&& old(process)@.has_entry(tid as int, Counter::Allocation, mutex_id as int)
            &&& old(process)@.entry(tid as int, Counter::Allocation, mutex_id as int) > 0
        },
    ensures
        out == Outcome::Perform(Action::UnlockMutex { mutex_id }),
        !old(process)@.deadlock_detect ==> final(process)@ == old(process)@,
        old(process)@.deadlock_detect ==> final(process)@ == old(process)@.with_task_entry(
            tid as int,
            Counter::Allocation,
            mutex_id as int,
            (old(process)@.entry(tid as int, Counter::Allocation, mutex_id as int) - 1) as usize,
        ),
{
    if process.enable_deadlock_detect {
        process.step_entry(tid, Counter::Allocation, mutex_id, false);
    }
    Outcome::Perform(Action::UnlockMutex { mutex_id })
}

/// Takes one unit of semaphore `sem_id` for thread `tid`. With deadlock
/// detection on, the thread first asks for the unit; where no order
/// would then let every thread get what it waits for, the request is
/// withdrawn and the call returns -0xDEAD. Otherwise the kernel takes
/// the unit.
pub fn sys_semaphore_down(process: &mut ProcessState, tid: usize, sem_id: usize) -> (out: Outcome)
    requires
        sem_id < old(process)@.semaphores.len(),
        old(process)@.semaphores[sem_id as int] is Some,
        old(process)@.deadlock_detect ==> {
            &&& old(process)@.has_entry(tid as int, Counter::Request, sem_id as int)
            &&& old(process)@.entry(tid as int, Counter::Request, sem_id as int) < usize::MAX
            &&& semaphore_check_defined(old(process)@)
        },
    ensures
        !old(process)@.deadlock_detect ==> {
            &&& final(process)@ == old(process)@
            &&& out == Outcome::Perform(Action::SemaphoreDown { sem_id, record: false })
        },
        old(process)@.deadlock_detect && semaphores_safe(
            asked(old(process)@, tid as int, Counter::Request, sem_id as int),
        ) ==> {
            &&& final(process)@ == asked(old(process)@, tid as int, Counter::Request, sem_id as int)
            &&& out == Outcome::Perform(Action::SemaphoreDown { sem_id, record: true })
        },
        old(process)@.deadlock_detect && !semaphores_safe(
            asked(old(process)@, tid as int, Counter::Request, sem_id as int),
        ) ==> {
            &&& final(process)@ == old(process)@
            &&& out == Outcome::Return(DEADLOCK)
        },
{
    let deadlock_detect = process.enable_deadlock_detect;
    if deadlock_detect == true {
        let ghost before = process@;
        process.step_entry(tid, Counter::Request, sem_id, true);
        proof {
            lemma_ask_keeps_semaphore_check(before, tid as int, sem_id as int);
        }
        if semaphore_deadlock_detect(process) == -1 {
            process.step_entry(tid, Counter::Request, sem_id, false);
            proof {
                lemma_ask_undo(before, tid as int, Counter::Request, sem_id as int);
            }
            return Outcome::Return(DEADLOCK);
        }
        Outcome::Perform(Action::SemaphoreDown { sem_id, record: true })
    } else {
        Outcome::Perform(Action::SemaphoreDown { sem_id, record: false })
    }
}

/// Books a semaphore unit once the kernel has taken it for thread
/// `tid`: where the unit was asked for with detection on, the request
/// turns into a holding. Returns 0.
pub fn semaphore_down_finish(process: &mut ProcessState, tid: usize, sem_id: usize, record: bool) -> (ret: isize)
    requires
        record ==> {
            &&& old(process)@.has_entry(tid as int, Counter::Request, sem_id as int)
            &&& old(process)@.entry(tid as int, Counter::Request, sem_id as int) > 0
            &&& old(process)@.has_entry(tid as int, Counter::Allocation, sem_id as int)
            &&& old(process)@.entry(tid as int, Counter::Allocation, sem_id as int) < usize::MAX
        },
    ensures
        ret == 0,
        !record ==> final(process)@ == old(process)@,
        record ==> final(process)@ == old(process)@.with_task_entry(
            tid as int,
            Counter::Request,
            sem_id as int,
            (old(process)@.entry(tid as int, Counter::Request, sem_id as int) - 1) as usize,
        ).with_task_entry(
            tid as int,
            Counter::Allocation,
            sem_id as int,
            (old(process)@.entry(tid as int, Counter::Allocation, sem_id as int) + 1) as usize,
        ),
{
    if record {
        process.step_entry(tid, Counter::Request, sem_id, false);
        process.step_entry(tid, Counter::Allocation, sem_id, true);
    }
    0
}

/// Releases one unit of semaphore `sem_id` for thread `tid`. With
/// deadlock detection on, one unit is taken off the thread's holding.
/// The kernel then releases the unit.
pub fn sys_semaphore_up(process: &mut ProcessState, tid: usize, sem_id: usize) -> (out: Outcome)
    requires
        sem_id < old(process)@.semaphores.len(),
        old(process)@.semaphores[sem_id as int] is Some,
        old(process)@.deadlock_detect ==> {
            &&& old(process)@.has_entry(tid as int, Counter::Allocation, sem_id as int)
            &&& old(process)@.entry(tid as int, Counter::Allocation, sem_id as int) > 0
        },
    ensures
        out == Outcome::Perform(Action::SemaphoreUp { sem_id }),
        !old(process)@.deadlock_detect ==> final(process)@ == old(process)@,
        old(process)@.deadlock_detect ==> final(process)@ == old(process)@.with_task_entry(
            tid as int,
            Counter::Allocation,
            sem_id as int,
            (old(process)@.entry(tid as int, Counter::Allocation, sem_id as int) - 1) as usize,
        ),
{
    if process.enable_deadlock_detect {
        process.step_entry(tid, Counter::Allocation, sem_id, false);
    }
    Outcome::Perform(Action::SemaphoreUp { sem_id })
}

/// The kind of mutex that `sys_mutex_create` makes.
pub open spec fn mutex_kind_of(blocking: bool) -> MutexKind {
    if blocking {
        MutexKind::Blocking
    } else {
        MutexKind::Spin
    }
}

/// Sleeps for `ms` milliseconds from `now_ms`: the kernel sets a timer that
/// wakes the current thread at `now_ms + ms` and blocks it.
pub fn sys_sleep(now_ms: usize, ms: usize) -> (out: Outcome)
    requires
        now_ms + ms <= usize::MAX,
    ensures
        out == Outcome::Perform(Action::Sleep { expire_ms: (now_ms + ms) as usize }),
{
    let expire_ms = now_ms + ms;
    Outcome::Perform(Action::Sleep { expire_ms })
}

/// Creates a mutex, blocking or spinning, in the lowest free slot or at
/// the end of the list, and returns its id.
pub fn sys_mutex_create(process: &mut ProcessState, blocking: bool) -> (id: isize)
    requires
        old(process)@.mutexes.len() < isize::MAX,
    ensures
        is_first_free(old(process)@.mutexes, id as int),
        final(process)@ == (ProcessView {
            mutexes: placed_at(old(process)@.mutexes, id as int, mutex_kind_of(blocking)),
            ..old(process)@
        }),
{
    let mutex = if !blocking {
        MutexKind::Spin
    } else {
        MutexKind::Blocking
    };
    let ghost before = process@;
    let id = place_in_free_slot(&mut process.mutex_list, mutex);
    assert(process@ =~= (ProcessView {
        mutexes: placed_at(before.mutexes, id as int, mutex_kind_of(blocking)),
        ..before
    }));
    id as isize
}

/// Creates a semaphore with `res_count` units, in the lowest free slot
/// or at the end of the list, and returns its id.
pub fn sys_semaphore_create(process: &mut ProcessState, res_count: usize) -> (id: isize)
    requires
        old(process)@.semaphores.len() < isize::MAX,
    ensures
        is_first_free(old(process)@.semaphores, id as int),
        final(process)@ == (ProcessView {
            semaphores: placed_at(
                old(process)@.semaphores,
                id as int,
                Semaphore { all_count: res_count },
            ),
            ..old(process)@
        }),
{
    let ghost before = process@;
    let id = place_in_free_slot(&mut process.semaphore_list, Semaphore { all_count: res_count });
    assert(process@ =~= (ProcessView {
        semaphores: placed_at(before.semaphores, id as int, Semaphore { all_count: res_count }),
        ..before
    }));
    id as isize
}

/// Creates a condition variable, in the lowest free slot or at the end
/// of the list, and returns its id.
pub fn sys_condvar_create(process: &mut ProcessState) -> (id: isize)
    requires
        old(process)@.condvars.len() < isize::MAX,
    ensures
        is_first_free(old(process)@.condvars, id as int),
        final(process)@ == (ProcessView {
            condvars: placed_at(old(process)@.condvars, id as int, Condvar {  }),
            ..old(process)@
        }),
{
    let ghost before = process@;
    let id = place_in_free_slot(&mut process.condvar_list, Condvar {  });
    assert(process@ =~= (ProcessView {
        condvars: placed_at(before.condvars, id as int, Condvar {  }),
        ..before
    }));
    id as isize
}

/// Wakes one thread waiting on condition variable `condvar_id`.
pub fn sys_condvar_signal(process: &ProcessState, condvar_id: usize) -> (out: Outcome)
    requires
        condvar_id < process@.condvars.len(),
        process@.condvars[condvar_id as int] is Some,
    ensures
        out == Outcome::Perform(Action::CondvarSignal { condvar_id }),
{
    Outcome::Perform(Action::CondvarSignal { condvar_id })
}

/// Waits on condition variable `condvar_id`, releasing mutex `mutex_id`
/// meanwhile.
pub fn sys_condvar_wait(process: &ProcessState, condvar_id: usize, mutex_id: usize) -> (out: Outcome)
    requires
        condvar_id < process@.condvars.len(),
        process@.condvars[condvar_id as int] is Some,
        mutex_id < process@.mutexes.len(),
        process@.mutexes[mutex_id as int] is Some,
    ensures
        out == Outcome::Perform(Action::CondvarWait { condvar_id, mutex_id }),
{
    Outcome::Perform(Action::CondvarWait { condvar_id, mutex_id })
}

/// Turns deadlock detection on (`enabled` 1) or off (`enabled` 0) and
/// returns 0; any other value is refused with -1 and changes nothing.
pub fn sys_enable_deadlock_detect(process: &mut ProcessState, enabled: usize) -> (ret: isize)
    ensures
        enabled != 0 && enabled != 1 ==> ret == -1 && final(process)@ == old(process)@,
        enabled == 0 || enabled == 1 ==> ret == 0 && final(process)@ == (ProcessView {
            deadlock_detect: enabled == 1,
            ..old(process)@
        }),
{
    if enabled != 1 && enabled != 0 {
        return -1;
    }
    if enabled == 1 {
        process.enable_deadlock_detect = true;
    } else {
        process.enable_deadlock_detect = false;
    }
    0
}

} // verus!
