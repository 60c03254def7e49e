//! The part of a process that the synchronisation calls read and change:
//! its threads' resource counters, its lists of mutexes, semaphores and
//! condition variables, and whether deadlock detection is on.
use vstd::prelude::*;

verus! {

/// How a mutex waits for its holder.
#[derive(Clone, Copy, PartialEq, Eq, Structural, Debug)]
pub enum MutexKind {
    /// Spins, yielding, until the mutex is free.
    Spin,
    /// Blocks the thread until the holder unlocks.
    Blocking,
}

/// A semaphore, as far as deadlock detection reads it: how many units it
/// was created with.
#[derive(Clone, Copy, PartialEq, Eq, Structural, Debug)]
pub struct Semaphore {
    pub all_count: usize,
}

/// A condition variable; deadlock detection reads nothing of it.
#[derive(Clone, Copy, PartialEq, Eq, Structural, Debug)]
pub struct Condvar {}

/// Which of a thread's four counters.
#[derive(Clone, Copy, PartialEq, Eq, Structural, Debug)]
pub enum Counter {
    /// Mutexes the thread waits for.
    MutexRequest,
    /// Mutexes the thread holds.
    MutexAllocation,
    /// Semaphore units the thread waits for.
    Request,
    /// Semaphore units the thread holds.
    Allocation,
}

/// A thread's resource counters, each indexed by mutex or semaphore id.
pub struct TaskState {
    pub mutex_request: Vec<usize>,
    pub mutex_allocation: Vec<usize>,
    pub request: Vec<usize>,
    pub allocation: Vec<usize>,
}

/// The mathematical value of a [`TaskState`].
#[verifier::ext_equal]
pub struct TaskView {
    pub mutex_request: Seq<usize>,
    pub mutex_allocation: Seq<usize>,
    pub request: Seq<usize>,
    pub allocation: Seq<usize>,
}

impl View for TaskState {
    type V = TaskView;

    open spec fn view(&self) -> TaskView {
        TaskView {
            mutex_request: self.mutex_request@,
            mutex_allocation: self.mutex_allocation@,
            request: self.request@,
            allocation: self.allocation@,
        }
    }
}

impl TaskView {
    /// The counter `which`.
    pub open spec fn counter(self, which: Counter) -> Seq<usize> {
        match which {
            Counter::MutexRequest => self.mutex_request,
            Counter::MutexAllocation => self.mutex_allocation,
            Counter::Request => self.request,
            Counter::Allocation => self.allocation,
        }
    }

    /// The same counters, with entry `id` of counter `which` set to `value`.
    pub open spec fn with_entry(self, which: Counter, id: int, value: usize) -> TaskView {
        match which {
            Counter::MutexRequest => TaskView {
                mutex_request: self.mutex_request.update(id, value),
                ..self
            },
            Counter::MutexAllocation => TaskView {
                mutex_allocation: self.mutex_allocation.update(id, value),
                ..self
            },
            Counter::Request => TaskView { request: self.request.update(id, value), ..self },
            Counter::Allocation => TaskView {
                allocation: self.allocation.update(id, value),
                ..self
            },
        }
    }
}

/// The synchronisation state of a process.
pub struct ProcessState {
    /// Its threads, by thread id; `None` where a thread has gone.
    pub tasks: Vec<Option<TaskState>>,
    /// Its mutexes, by id; `None` where a slot is free.
    pub mutex_list: Vec<Option<MutexKind>>,
    /// Its semaphores, by id; `None` where a slot is free.
    pub semaphore_list: Vec<Option<Semaphore>>,
    /// Its condition variables, by id; `None` where a slot is free.
    pub condvar_list: Vec<Option<Condvar>>,
    /// Whether lock and down requests are checked for deadlock.
    pub enable_deadlock_detect: bool,
}

/// The mathematical value of a [`ProcessState`].
#[verifier::ext_equal]
pub struct ProcessView {
    pub tasks: Seq<Option<TaskView>>,
    pub mutexes: Seq<Option<MutexKind>>,
    pub semaphores: Seq<Option<Semaphore>>,
    pub condvars: Seq<Option<Condvar>>,
    pub deadlock_detect: bool,
}

pub open spec fn task_view(t: Option<TaskState>) -> Option<TaskView> {
    match t {
        Some(t) => Some(t@),
        None => None,
    }
}

impl View for ProcessState {
    type V = ProcessView;

    open spec fn view(&self) -> ProcessView {
        ProcessView {
            tasks: Seq::new(self.tasks@.len(), |i: int| task_view(self.tasks@[i])),
            mutexes: self.mutex_list@,
            semaphores: self.semaphore_list@,
            condvars: self.condvar_list@,
            deadlock_detect: self.enable_deadlock_detect,
        }
    }
}

impl ProcessView {
    /// Thread `tid` exists.
    pub open spec fn has_task(self, tid: int) -> bool {
        0 <= tid < self.tasks.len() && self.tasks[tid] is Some
    }

    /// The counters of thread `tid`.
    pub open spec fn task(self, tid: int) -> TaskView {
        self.tasks[tid]->0
    }

    /// The same process, with entry `id` of counter `which` of thread `tid`
    /// set to `value`.
    pub open spec fn with_task_entry(self, tid: int, which: Counter, id: int, value: usize) -> ProcessView {
        ProcessView {
            tasks: self.tasks.update(tid, Some(self.task(tid).with_entry(which, id, value))),
            ..self
        }
    }

    /// Entry `id` of counter `which` of thread `tid` exists.
    pub open spec fn has_entry(self, tid: int, which: Counter, id: int) -> bool {
        self.has_task(tid) && 0 <= id < self.task(tid).counter(which).len()
    }

    /// Entry `id` of counter `which` of thread `tid`.
    pub open spec fn entry(self, tid: int, which: Counter, id: int) -> usize {
        self.task(tid).counter(which)[id]
    }
}

impl TaskState {
    fn set_entry(&mut self, which: Counter, id: usize, value: usize)
        requires
            id < old(self)@.counter(which).len(),
        ensures
            final(self)@ == old(self)@.with_entry(which, id as int, value),
    {
        match which {
            Counter::MutexRequest => {
                self.mutex_request[id] = value;
            },
            Counter::MutexAllocation => {
                self.mutex_allocation[id] = value;
            },
            Counter::Request => {
                self.request[id] = value;
            },
            Counter::Allocation => {
                self.allocation[id] = value;
            },
        }
    }

    fn counter_len(&self, which: Counter) -> (len: usize)
        ensures
            len == self@.counter(which).len(),
    {
        match which {
            Counter::MutexRequest => self.mutex_request.len(),
            Counter::MutexAllocation => self.mutex_allocation.len(),
            Counter::Request => self.request.len(),
            Counter::Allocation => self.allocation.len(),
        }
    }

    fn get_entry(&self, which: Counter, id: usize) -> (value: usize)
        requires
            id < self@.counter(which).len(),
        ensures
            value == self@.counter(which)[id as int],
    {
        match which {
            Counter::MutexRequest => self.mutex_request[id],
            Counter::MutexAllocation => self.mutex_allocation[id],
            Counter::Request => self.request[id],
            Counter::Allocation => self.allocation[id],
        }
    }
}

impl ProcessState {
    /// Adds one to entry `id` of counter `which` of thread `tid` where `up`
    /// holds, and takes one away where it does not.
    pub(crate) fn step_entry(&mut self, tid: usize, which: Counter, id: usize, up: bool)
        requires
            old(self)@.has_entry(tid as int, which, id as int),
            up ==> old(self)@.entry(tid as int, which, id as int) < usize::MAX,
            !up ==> old(self)@.entry(tid as int, which, id as int) > 0,
        ensures
            final(self)@ == old(self)@.with_task_entry(
                tid as int,
                which,
                id as int,
                if up {
                    (old(self)@.entry(tid as int, which, id as int) + 1) as usize
                } else {
                    (old(self)@.entry(tid as int, which, id as int) - 1) as usize
                },
            ),
    {
        let ghost old_view = self@;
        match &mut self.tasks[tid] {
            Some(t) => {
                let v = t.get_entry(which, id);
                let nv = if up {
                    v + 1
                } else {
                    v - 1
                };
                t.set_entry(which, id, nv);
            },
            None => {},
        }
        assert(self@.tasks =~= old_view.with_task_entry(
            tid as int,
            which,
            id as int,
            if up {
                (old_view.entry(tid as int, which, id as int) + 1) as usize
            } else {
                (old_view.entry(tid as int, which, id as int) - 1) as usize
            },
        ).tasks);
    }
}

/// `id` is the lowest free slot of `slots`, or its length where none is free.
pub open spec fn is_first_free<T>(slots: Seq<Option<T>>, id: int) -> bool {
    &&& 0 <= id <= slots.len()
    &&& id < slots.len() ==> slots[id] is None
    &&& forall|k: int| 0 <= k < id ==> #[trigger] slots[k] is Some
}

/// The slots after `item` is placed at `id`: in the slot, or at the end.
pub open spec fn placed_at<T>(slots: Seq<Option<T>>, id: int, item: T) -> Seq<Option<T>> {
    if id < slots.len() {
        slots.update(id, Some(item))
    } else {
        slots.push(Some(item))
    }
}

/// A new item goes into a slot that was free, is found there afterwards,
/// and leaves every other slot as it was; the list grows by at most one.
pub proof fn lemma_placed_slot_is_fresh<T>(slots: Seq<Option<T>>, id: int, item: T)
    requires
        is_first_free(slots, id),
    ensures
        id < slots.len() ==> slots[id] is None,
        placed_at(slots, id, item)[id] == Some(item),
        placed_at(slots, id, item).len() == if id < slots.len() {
            slots.len()
        } else {
            slots.len() + 1
        },
        forall|k: int| 0 <= k < slots.len() && k != id ==> #[trigger] placed_at(slots, id, item)[k] == slots[k],
{
}

/// The id that creation picks is the lowest index whose slot is free, or the
/// length of the list where every slot is taken.
pub proof fn lemma_first_free_is_lowest_none<T>(slots: Seq<Option<T>>, id: int)
    ensures
        is_first_free(slots, id) <==> {
            &&& 0 <= id <= slots.len()
            &&& forall|k: int| 0 <= k < id ==> #[trigger] slots[k] is Some
            &&& id < slots.len() ==> slots[id] is None
        },
{
}

/// Puts `item` in the lowest free slot of `slots`, or at the end where none
/// is free, and returns its id.
pub fn place_in_free_slot<T>(slots: &mut Vec<Option<T>>, item: T) -> (id: usize)
    requires
        old(slots)@.len() < usize::MAX,
    ensures
        is_first_free(old(slots)@, id as int),
        final(slots)@ == placed_at(old(slots)@, id as int, item),
{
    let mut i: usize = 0;
    while i < slots.len()
        invariant
            i <= slots@.len(),
            slots@ == old(slots)@,
            forall|k: int| 0 <= k < i ==> #[trigger] slots@[k] is Some,
        decreases slots@.len() - i,
    {
        if slots[i].is_none() {
            slots[i] = Some(item);
            return i;
        }
        i = i + 1;
    }
    slots.push(Some(item));
    slots.len() - 1
}

/// For each thread, the first `m` entries of its counter `which`; a row of
/// zeros for a thread that has gone.
pub open spec fn counter_rows(v: ProcessView, which: Counter, m: int) -> Seq<Seq<usize>> {
    Seq::new(
        v.tasks.len(),
        |i: int|
            match v.tasks[i] {
                Some(t) => t.counter(which).take(m),
                None => Seq::new(m as nat, |j: int| 0usize),
            },
    )
}

/// Every thread's counter `which` has at least `m` entries.
pub open spec fn counters_cover(v: ProcessView, which: Counter, m: int) -> bool {
    forall|i: int| #[trigger] v.has_task(i) ==> v.task(i).counter(which).len() >= m
}

/// Entry `(i, j)` of the rows is entry `j` of thread `i`'s counter, or 0
/// where thread `i` has gone; there is one row per thread.
pub proof fn lemma_counter_rows_entries(v: ProcessView, which: Counter, m: int)
    requires
        0 <= m,
        counters_cover(v, which, m),
    ensures
        counter_rows(v, which, m).len() == v.tasks.len(),
        forall|i: int, j: int|
            0 <= i < v.tasks.len() && 0 <= j < m ==> #[trigger] counter_rows(v, which, m)[i][j]
                == if v.tasks[i] is Some {
                v.task(i).counter(which)[j]
            } else {
                0usize
            },
{
    assert forall|i: int, j: int|
        0 <= i < v.tasks.len() && 0 <= j < m implies #[trigger] counter_rows(v, which, m)[i][j]
        == if v.tasks[i] is Some {
        v.task(i).counter(which)[j]
    } else {
        0usize
    } by {
        if v.tasks[i] is Some {
            assert(v.has_task(i));
        }
    }
}

impl ProcessState {
    /// Whether every thread's counter `which` has at least `m` entries.
    pub fn counters_reach(&self, which: Counter, m: usize) -> (ok: bool)
        ensures
            ok == counters_cover(self@, which, m as int),
    {
        let mut i: usize = 0;
        while i < self.tasks.len()
            invariant
                i <= self.tasks@.len(),
                forall|k: int| 0 <= k < i && #[trigger] self@.has_task(k) ==> self@.task(k).counter(
                    which,
                ).len() >= m,
            decreases self.tasks@.len() - i,
        {
            match &self.tasks[i] {
                Some(t) => {
                    assert(self@.has_task(i as int));
                    if t.counter_len(which) < m {
                        return false;
                    }
                },
                None => {},
            }
            i = i + 1;
        }
        true
    }

    /// The rows that [`counter_rows`] describes.
    pub fn counter_matrix(&self, which: Counter, m: usize) -> (rows: Vec<Vec<usize>>)
        requires
            counters_cover(self@, which, m as int),
        ensures
            rows.deep_view() == counter_rows(self@, which, m as int),
    {
        let ghost v = self@;
        let mut rows: Vec<Vec<usize>> = Vec::new();
        let mut i: usize = 0;
        while i < self.tasks.len()
            invariant
                i <= self.tasks@.len(),
                v == self@,
                counters_cover(v, which, m as int),
                rows@.len() == i,
                forall|k: int| 0 <= k < i ==> #[trigger] rows@[k]@ == counter_rows(v, which, m as int)[k],
            decreases self.tasks@.len() - i,
        {
            let mut row: Vec<usize> = Vec::new();
            match &self.tasks[i] {
                Some(t) => {
                    assert(v.has_task(i as int));
                    let mut j: usize = 0;
                    while j < m
                        invariant
                            j <= m,
                            t@.counter(which).len() >= m,
                            row@ == t@.counter(which).take(j as int),
                        decreases m - j,
                    {
                        row.push(t.get_entry(which, j));
                        j = j + 1;
                        assert(row@ =~= t@.counter(which).take(j as int));
                    }
                },
                None => {
                    let mut j: usize = 0;
                    while j < m
                        invariant
                            j <= m,
                            row@ == Seq::new(j as nat, |k: int| 0usize),
                        decreases m - j,
                    {
                        row.push(0);
                        j = j + 1;
                        assert(row@ =~= Seq::new(j as nat, |k: int| 0usize));
                    }
                },
            }
            assert(row@ =~= counter_rows(v, which, m as int)[i as int]);
            rows.push(row);
            i = i + 1;
        }
        assert(rows.deep_view() =~= counter_rows(v, which, m as int)) by {
            assert forall|k: int| 0 <= k < rows@.len() implies #[trigger] rows.deep_view()[k]
                == counter_rows(v, which, m as int)[k] by {
                assert(rows.deep_view()[k] =~= rows@[k]@);
            }
        }
        rows
    }
}

} // verus!
