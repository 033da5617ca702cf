//! The task table and the cooperative context switch.
//!
//! A `TaskList` is the process-wide registry: tasks ordered by id, a
//! monotone id counter, the current-task id and the context-switch lock.  On
//! the real machine the last two are process-wide atomics; in this model
//! they are fields of the registry, which the surrounding program keeps
//! behind its single global lock.

use vstd::prelude::*;
use vstd::string::StringExecFns;

verus! {

/// The highest task id is reserved as an invalid marker.
pub const MAX_NR_TASKS: u64 = u64::MAX - 1;

/// A task's kernel stack is 16 KiB.
pub const STACK_SIZE: u64 = 16384;

/// The lifecycle phase of a task.
#[derive(Clone, Copy, PartialEq, Eq, Structural, Debug)]
pub enum RunState {
    /// In the midst of setting up the task.
    INITING,
    /// Able to be scheduled in, but not currently running.
    RUNNABLE,
    /// Actually running.
    RUNNING,
    /// Blocked on something, like I/O or a wait event.
    BLOCKED,
    /// Exited, with an exit code.
    EXITED(i8),
}

/// A task identifier.
#[derive(Clone, Copy, PartialEq, Eq, Structural, Debug)]
pub struct TaskId {
    pub num: u64,
}

/// The architecture register-save area of a task: the page-table base
/// register and the saved stack pointer.  The stack pointer is held as an
/// offset into the task's own kernel stack.  The register save/restore
/// primitive itself is architecture code outside this model.
#[derive(Clone, Copy, PartialEq, Eq, Structural, Debug)]
pub struct ArchTaskState {
    pub page_table: u64,
    pub stack_pointer: u64,
}

impl ArchTaskState {
    pub fn new() -> (r: ArchTaskState)
        ensures
            r.page_table == 0,
            r.stack_pointer == 0,
    {
        ArchTaskState { page_table: 0, stack_pointer: 0 }
    }

    pub fn set_page_table(&mut self, pt: u64)
        ensures
            final(self).page_table == pt,
            final(self).stack_pointer == old(self).stack_pointer,
    {
        self.page_table = pt;
    }

    pub fn get_page_table(&self) -> (r: u64)
        ensures
            r == self.page_table,
    {
        self.page_table
    }

    pub fn set_stack(&mut self, sp: u64)
        ensures
            final(self).stack_pointer == sp,
            final(self).page_table == old(self).page_table,
    {
        self.stack_pointer = sp;
    }
}

/// The decimal digits of `n`, most significant first.
pub open spec fn spec_digits(n: u64) -> Seq<char>
    decreases n,
{
    if n < 10 {
        seq![spec_digit_char(n)]
    } else {
        spec_digits(n / 10).push(spec_digit_char(n % 10))
    }
}

/// The character of one decimal digit.
pub open spec fn spec_digit_char(d: u64) -> char {
    if d == 0 {
        '0'
    } else if d == 1 {
        '1'
    } else if d == 2 {
        '2'
    } else if d == 3 {
        '3'
    } else if d == 4 {
        '4'
    } else if d == 5 {
        '5'
    } else if d == 6 {
        '6'
    } else if d == 7 {
        '7'
    } else if d == 8 {
        '8'
    } else {
        '9'
    }
}

/// The name of the task with the given id: `task` followed by the id in
/// decimal.
pub open spec fn spec_task_name(n: u64) -> Seq<char> {
    "task"@ + spec_digits(n)
}

fn digit_str(d: u64) -> (r: &'static str)
    requires
        d < 10,
    ensures
        r@ == seq![spec_digit_char(d)],
{
    let r = if d == 0 {
        "0"
    } else if d == 1 {
        "1"
    } else if d == 2 {
        "2"
    } else if d == 3 {
        "3"
    } else if d == 4 {
        "4"
    } else if d == 5 {
        "5"
    } else if d == 6 {
        "6"
    } else if d == 7 {
        "7"
    } else if d == 8 {
        "8"
    } else {
        "9"
    };
    proof {
        reveal_strlit("0");
        reveal_strlit("1");
        reveal_strlit("2");
        reveal_strlit("3");
        reveal_strlit("4");
        reveal_strlit("5");
        reveal_strlit("6");
        reveal_strlit("7");
        reveal_strlit("8");
        reveal_strlit("9");
        assert(r@ =~= seq![spec_digit_char(d)]);
    }
    r
}

fn digits_string(n: u64) -> (r: String)
    ensures
        r@ == spec_digits(n),
    decreases n,
{
    if n < 10 {
        digit_str(n).to_owned()
    } else {
        let mut s = digits_string(n / 10);
        s.append(digit_str(n % 10));
        proof {
            assert(s@ =~= spec_digits(n));
        }
        s
    }
}

/// One kernel task.
pub struct Task {
    pub id: TaskId,
    pub runstate: RunState,
    pub arch_state: ArchTaskState,
    /// The owned kernel stack, once the task has one.
    pub kstack: Option<Vec<u8>>,
    pub name: String,
}

impl Task {
    /// A fresh task in the `INITING` state with no stack.
    pub fn new(task_id: TaskId) -> (r: Task)
        ensures
            r.id == task_id,
            r.runstate == RunState::INITING,
            r.arch_state.page_table == 0,
            r.arch_state.stack_pointer == 0,
            r.kstack is None,
            r.name@ == spec_task_name(task_id.num),
    {
        let mut name = "task".to_owned();
        name.append(digits_string(task_id.num).as_str());
        proof {
            assert(name@ =~= spec_task_name(task_id.num));
        }
        Task {
            id: task_id,
            runstate: RunState::INITING,
            arch_state: ArchTaskState::new(),
            name,
            kstack: None,
        }
    }

    /// Switches from `self` (the running task) to `next`: takes the switch
    /// lock, moves the runstates, publishes `next` as the current task, and
    /// releases the lock.  The caller then performs the architecture
    /// register swap, which is outside this model.  The scheduler must never
    /// pick a blocked or already-running task.
    pub fn context_switch(
        &mut self,
        next: &mut Task,
        switch_lock: &mut bool,
        current_task: &mut TaskId,
    )
        requires
            old(next).runstate != RunState::BLOCKED,
            old(next).runstate != RunState::RUNNING,
            !*old(switch_lock),
        ensures
            final(self).runstate == RunState::RUNNABLE,
            final(self).id == old(self).id,
            final(self).arch_state == old(self).arch_state,
            final(self).kstack == old(self).kstack,
            final(self).name == old(self).name,
            final(next).runstate == RunState::RUNNING,
            final(next).id == old(next).id,
            final(next).arch_state == old(next).arch_state,
            final(next).kstack == old(next).kstack,
            final(next).name == old(next).name,
            *final(current_task) == old(next).id,
            *final(switch_lock) == false,
    {
        *switch_lock = true;
        self.runstate = RunState::RUNNABLE;
        next.runstate = RunState::RUNNING;
        *current_task = next.id;
        *switch_lock = false;
    }
}

/// The registry of all tasks.
pub struct TaskList {
    /// The tasks, in strictly increasing id order.
    pub list: Vec<Task>,
    /// Where the search for the next free id starts.
    pub taskid_counter: u64,
    /// The id of the task currently running.
    pub current_task: TaskId,
    /// The context-switch lock.
    pub context_switch_lock: bool,
}

impl TaskList {
    /// Ids are strictly increasing along the list.
    pub open spec fn wf(self) -> bool {
        forall|i: int, j: int|
            0 <= i < j < self.list@.len() ==> #[trigger] self.list@[i].id.num < #[trigger] self.list@[j].id.num
    }

    pub open spec fn spec_contains(self, id: u64) -> bool {
        exists|i: int| 0 <= i < self.list@.len() && (#[trigger] self.list@[i].id.num) == id
    }

    /// A fresh, empty registry.  The surrounding program creates exactly one
    /// and keeps it behind its global lock.
    pub fn new() -> (r: TaskList)
        ensures
            r.list@.len() == 0,
            r.taskid_counter == 1,
            r.current_task.num == 0,
            !r.context_switch_lock,
            r.wf(),
    {
        TaskList {
            list: Vec::new(),
            taskid_counter: 1,
            current_task: TaskId { num: 0 },
            context_switch_lock: false,
        }
    }

    /// The index of the task with the given id.
    pub fn index_of(&self, id: TaskId) -> (r: Option<usize>)
        ensures
            match r {
                Some(i) => i < self.list@.len() && self.list@[i as int].id == id,
                None => !self.spec_contains(id.num),
            },
    {
        let mut i: usize = 0;
        while i < self.list.len()
            invariant
                i <= self.list@.len(),
                forall|j: int| 0 <= j < i ==> (#[trigger] self.list@[j].id.num) != id.num,
            decreases self.list@.len() - i,
        {
            if self.list[i].id.num == id.num {
                return Some(i);
            }
            i = i + 1;
        }
        None
    }

    /// A read-only view of the task at `index`.
    pub fn get_task(&self, index: usize) -> (r: &Task)
        requires
            index < self.list@.len(),
        ensures
            r == &self.list@[index as int],
    {
        &self.list[index]
    }

    pub fn len(&self) -> (r: usize)
        ensures
            r == self.list@.len(),
    {
        self.list.len()
    }

    /// The task ids in increasing order.
    pub fn iter(&self) -> (r: Vec<TaskId>)
        ensures
            r@.len() == self.list@.len(),
            forall|i: int| 0 <= i < r@.len() ==> r@[i] == self.list@[i].id,
    {
        let mut r: Vec<TaskId> = Vec::new();
        let mut i: usize = 0;
        while i < self.list.len()
            invariant
                i <= self.list@.len(),
                r@.len() == i,
                forall|j: int| 0 <= j < i ==> r@[j] == self.list@[j].id,
            decreases self.list@.len() - i,
        {
            r.push(self.list[i].id);
            i = i + 1;
        }
        r
    }

    /// Inserts a task with an id not yet present, keeping the id order.
    fn insert_task(&mut self, t: Task) -> (r: usize)
        requires
            old(self).wf(),
            !old(self).spec_contains(t.id.num),
        ensures
            final(self).wf(),
            r <= old(self).list@.len(),
            final(self).list@ == old(self).list@.insert(r as int, t),
            final(self).list@.len() == old(self).list@.len() + 1,
            final(self).spec_contains(t.id.num),
            forall|x: u64|
                #[trigger] final(self).spec_contains(x) <==> (old(self).spec_contains(x) || x
                    == t.id.num),
            final(self).taskid_counter == old(self).taskid_counter,
            final(self).current_task == old(self).current_task,
            final(self).context_switch_lock == old(self).context_switch_lock,
    {
        let ghost l0 = self.list@;
        let mut i: usize = 0;
        while i < self.list.len() && self.list[i].id.num < t.id.num
            invariant
                i <= self.list@.len(),
                self.list@ == l0,
                forall|j: int| 0 <= j < i ==> (#[trigger] self.list@[j].id.num) < t.id.num,
            decreases self.list@.len() - i,
        {
            i = i + 1;
        }
        proof {
            if i < self.list@.len() {
                assert(self.list@[i as int].id.num >= t.id.num);
                assert(self.list@[i as int].id.num != t.id.num);
            }
        }
        self.list.insert(i, t);
        proof {
            l0.insert_ensures(i as int, t);
            let l1 = self.list@;
            assert forall|a: int, b: int| 0 <= a < b < l1.len() implies #[trigger] l1[a].id.num
                < #[trigger] l1[b].id.num by {
                if a < i && b < i {
                } else if a >= i + 1 && b >= i + 1 {
                    assert(l1[a] == l0[a - 1] && l1[b] == l0[b - 1]);
                } else if b == i {
                    assert(l1[a] == l0[a]);
                } else if a == i {
                    assert(l1[b] == l0[b - 1]);
                    assert(l0[b - 1].id.num >= t.id.num);
                    assert(l0[b - 1].id.num != t.id.num);
                }
            }
            assert forall|x: u64|
                #[trigger] self.spec_contains(x) <==> (old(self).spec_contains(x) || x
                    == t.id.num) by {
                if self.spec_contains(x) {
                    let k = choose|k: int|
                        0 <= k < l1.len() && (#[trigger] l1[k].id.num) == x;
                    if k < i {
                        assert(l0[k].id.num == x);
                    } else if k > i {
                        assert(l0[k - 1].id.num == x);
                    }
                }
                if old(self).spec_contains(x) {
                    let k = choose|k: int|
                        0 <= k < l0.len() && (#[trigger] l0[k].id.num) == x;
                    if k < i {
                        assert(l1[k].id.num == x);
                    } else {
                        assert(l1[k + 1].id.num == x);
                    }
                }
                if x == t.id.num {
                    assert(l1[i as int].id.num == x);
                }
            }
        }
        i
    }

    /// Creates a fresh `INITING` task under the next free id, starting the
    /// search at the stored counter and wrapping modulo `MAX_NR_TASKS`.
    /// Fails only when every id is taken.
    pub fn new_task(&mut self) -> (r: Result<TaskId, &'static str>)
        requires
            old(self).wf(),
        ensures
            final(self).wf(),
            final(self).current_task == old(self).current_task,
            final(self).context_switch_lock == old(self).context_switch_lock,
            r matches Ok(id) ==> {
                &&& 1 <= id.num < MAX_NR_TASKS
                &&& !old(self).spec_contains(id.num)
                &&& final(self).spec_contains(id.num)
                &&& (forall|x: u64|
                    #[trigger] final(self).spec_contains(x) <==> (old(self).spec_contains(x) || x
                        == id.num))
                &&& final(self).taskid_counter == id.num + 1
                &&& final(self).list@.len() == old(self).list@.len() + 1
                &&& exists|i: int|
                    0 <= i < final(self).list@.len() && (#[trigger] final(self).list@[i]).id == id
                        && final(self).list@[i].runstate == RunState::INITING && final(self).list@[i].kstack is None && final(self).list@[i].arch_state == (ArchTaskState {
                        page_table: 0,
                        stack_pointer: 0,
                    }) && final(self).list@[i].name@ == spec_task_name(id.num) && final(self).list@ == old(self).list@.insert(i, final(self).list@[i])
            },
            r is Err ==> (forall|id: u64|
                1 <= id < MAX_NR_TASKS ==> #[trigger] old(self).spec_contains(id)) && *final(self)
                == *old(self),
            r matches Err(m) ==> m@ == "unable to find free id for new task"@,
    {
        let mut counter: u64 = self.taskid_counter;
        if counter == 0 || counter >= MAX_NR_TASKS {
            counter = 1;
        }
        let starting: u64 = counter;
        loop
            invariant
                self.wf(),
                *self == *old(self),
                1 <= starting < MAX_NR_TASKS,
                1 <= counter < MAX_NR_TASKS,
                counter >= starting ==> forall|id: u64|
                    starting <= id < counter ==> #[trigger] self.spec_contains(id),
                counter < starting ==> (forall|id: u64|
                    starting <= id < MAX_NR_TASKS ==> #[trigger] self.spec_contains(id)) && (forall|
                    id: u64,
                |
                    1 <= id < counter ==> #[trigger] self.spec_contains(id)),
            ensures
                1 <= counter < MAX_NR_TASKS,
                !self.spec_contains(counter),
                self.wf(),
                *self == *old(self),
            decreases (if counter >= starting {
                MAX_NR_TASKS - counter + starting
            } else {
                (starting - counter) as int
            }),
        {
            let idx_opt = self.index_of(TaskId { num: counter });
            match idx_opt {
                None => {
                    break ;
                },
                Some(ix) => {
                    proof {
                        assert(self.list@[ix as int].id.num == counter);
                        assert(self.spec_contains(counter));
                    }
                },
            }
            let ghost prev = counter;
            let ghost wrapped_from_top = counter + 1 >= MAX_NR_TASKS;
            counter = counter + 1;
            if counter >= MAX_NR_TASKS {
                counter = 1;
            }
            if counter == starting {
                proof {
                    assert forall|id: u64| 1 <= id < MAX_NR_TASKS implies #[trigger] self
                        .spec_contains(id) by {
                        if wrapped_from_top {
                            if id < prev {
                                assert(self.spec_contains(id));
                            } else {
                                assert(id == prev);
                            }
                        } else {
                            if id < prev {
                                assert(self.spec_contains(id));
                            } else if id == prev {
                            } else {
                                assert(starting <= id < MAX_NR_TASKS);
                                assert(self.spec_contains(id));
                            }
                        }
                    }
                }
                return Err("unable to find free id for new task");
            }
            proof {
                if counter >= starting {
                    assert forall|id: u64| starting <= id < counter implies #[trigger] self
                        .spec_contains(id) by {
                        if id < prev {
                        } else {
                            assert(id == prev);
                        }
                    }
                } else {
                    if wrapped_from_top {
                        assert forall|id: u64|
                            starting <= id < MAX_NR_TASKS implies #[trigger] self.spec_contains(
                            id,
                        ) by {
                            if id < prev {
                            } else {
                                assert(id == prev);
                            }
                        }
                    } else {
                        assert(prev < starting);
                        assert forall|id: u64| 1 <= id < counter implies #[trigger] self
                            .spec_contains(id) by {
                            if id < prev {
                            } else {
                                assert(id == prev);
                            }
                        }
                    }
                }
            }
        }
        let new_id = TaskId { num: counter };
        proof {
            assert(!self.spec_contains(counter));
            assert(self.wf());
        }
        self.taskid_counter = counter + 1;
        let t = Task::new(new_id);
        let ghost tg = t;
        let i = self.insert_task(t);
        proof {
            assert(self.list@[i as int] == tg);
            assert(self.list@ == old(self).list@.insert(i as int, tg));
        }
        Ok(new_id)
    }

    /// Sets up task 0 around the already-running bootstrap thread: it is
    /// `RUNNING`, holds the live page-table base register, and becomes the
    /// current task.  Refuses to run twice.
    pub fn init_first_task(&mut self, page_table_register: u64) -> (r: Result<
        TaskId,
        &'static str,
    >)
        requires
            old(self).wf(),
        ensures
            final(self).wf(),
            r is Ok <==> !old(self).spec_contains(0),
            old(self).spec_contains(0) ==> (r matches Err(m) && m@
                == "init_first_task was already called once!"@ && *final(self) == *old(self)),
            r matches Ok(id) ==> {
                &&& id.num == 0
                &&& final(self).current_task.num == 0
                &&& final(self).spec_contains(0)
                &&& (forall|x: u64|
                    #[trigger] final(self).spec_contains(x) <==> (old(self).spec_contains(x) || x
                        == 0))
                &&& exists|i: int|
                    0 <= i < final(self).list@.len() && (#[trigger] final(self).list@[i]).id.num
                        == 0 && final(self).list@[i].runstate == RunState::RUNNING && final(self).list@[i].arch_state.page_table == page_table_register && final(self).list@[i].kstack
                        is None && final(self).list@[i].name@ == spec_task_name(0) && final(self).list@
                        == old(self).list@.insert(i, final(self).list@[i])
            },
    {
        match self.index_of(TaskId { num: 0 }) {
            Some(ix) => {
                proof {
                    assert(self.list@[ix as int].id.num == 0);
                    assert(self.spec_contains(0));
                }
                return Err("init_first_task was already called once!");
            },
            None => {},
        }
        let mut task_zero = Task::new(TaskId { num: 0 });
        self.current_task = TaskId { num: 0 };
        task_zero.runstate = RunState::RUNNING;
        task_zero.arch_state.set_page_table(page_table_register);
        let ghost tz = task_zero;
        let i = self.insert_task(task_zero);
        proof {
            assert(self.list@[i as int] == tz);
            assert(self.list@ == old(self).list@.insert(i as int, tz));
        }
        Ok(TaskId { num: 0 })
    }
    /// Removes the task with the given id, handing it back so the caller
    /// can observe its final state.
    pub fn remove(&mut self, id: TaskId) -> (r: Option<Task>)
        requires
            old(self).wf(),
        ensures
            final(self).wf(),
            final(self).taskid_counter == old(self).taskid_counter,
            final(self).current_task == old(self).current_task,
            final(self).context_switch_lock == old(self).context_switch_lock,
            r is Some <==> old(self).spec_contains(id.num),
            r is None ==> *final(self) == *old(self),
            r matches Some(t) ==> t.id == id && !final(self).spec_contains(id.num) && (forall|
                x: u64,
            |
                #[trigger] final(self).spec_contains(x) <==> (old(self).spec_contains(x) && x
                    != id.num)) && (exists|i: int|
                0 <= i < old(self).list@.len() && (#[trigger] old(self).list@[i]).id == id && t
                    == old(self).list@[i] && final(self).list@ == old(self).list@.remove(i)),
    {
        let ghost l0 = self.list@;
        match self.index_of(id) {
            None => None,
            Some(i) => {
                let t = self.list.remove(i);
                proof {
                    let l1 = self.list@;
                    assert forall|a: int, b: int| 0 <= a < b < l1.len() implies #[trigger] l1[a].id.num
                        < #[trigger] l1[b].id.num by {
                        if a < i {
                            assert(l1[a] == l0[a]);
                        } else {
                            assert(l1[a] == l0[a + 1]);
                        }
                        if b < i {
                            assert(l1[b] == l0[b]);
                        } else {
                            assert(l1[b] == l0[b + 1]);
                        }
                    }
                    assert forall|x: u64|
                        #[trigger] self.spec_contains(x) <==> (old(self).spec_contains(x) && x
                            != id.num) by {
                        if self.spec_contains(x) {
                            let k = choose|k: int|
                                0 <= k < l1.len() && (#[trigger] l1[k].id.num) == x;
                            if k < i {
                                assert(l0[k].id.num == x);
                                if x == id.num {
                                    assert(l0[k].id.num == l0[i as int].id.num);
                                }
                            } else {
                                assert(l0[k + 1].id.num == x);
                                if x == id.num {
                                    assert(l0[k + 1].id.num == l0[i as int].id.num);
                                }
                            }
                        }
                        if old(self).spec_contains(x) && x != id.num {
                            let k = choose|k: int|
                                0 <= k < l0.len() && (#[trigger] l0[k].id.num) == x;
                            assert(k != i);
                            if k < i {
                                assert(l1[k].id.num == x);
                            } else {
                                assert(l1[k - 1].id.num == x);
                            }
                        }
                    }
                }
                Some(t)
            },
        }
    }

    /// The position of the task with id `id`; meaningful only when the id
    /// is present.
    pub open spec fn spec_task_index(self, id: u64) -> int {
        choose|i: int| 0 <= i < self.list@.len() && (#[trigger] self.list@[i].id.num) == id
    }

    /// Spawns a new task that will enter the code at address `func`: it
    /// shares the current task's page table, gets a fresh 16 KiB stack whose
    /// topmost 8 bytes hold `func` little-endian, has its saved stack
    /// pointer at that topmost slot, and becomes `RUNNABLE`.
    pub fn spawn(&mut self, func: u64) -> (r: Result<TaskId, &'static str>)
        requires
            old(self).wf(),
            old(self).spec_contains(old(self).current_task.num),
        ensures
            final(self).wf(),
            final(self).current_task == old(self).current_task,
            final(self).context_switch_lock == old(self).context_switch_lock,
            r matches Err(m) ==> m@ == "unable to find free id for new task"@,
            r is Err ==> (forall|id: u64|
                1 <= id < MAX_NR_TASKS ==> #[trigger] old(self).spec_contains(id)) && final(self).list@ == old(self).list@,
            r matches Ok(id) ==> {
                &&& 1 <= id.num < MAX_NR_TASKS
                &&& !old(self).spec_contains(id.num)
                &&& (forall|x: u64|
                    #[trigger] final(self).spec_contains(x) <==> (old(self).spec_contains(x) || x
                        == id.num))
                &&& exists|i: int|
                    0 <= i < final(self).list@.len() && (#[trigger] final(self).list@[i]).id == id
                        && final(self).list@[i].runstate == RunState::RUNNABLE && final(self).list@[i].arch_state.stack_pointer == STACK_SIZE - 8 && final(self).list@[i].arch_state.page_table == old(self).list@[old(self).spec_task_index(
                        old(self).current_task.num,
                    )].arch_state.page_table && (final(self).list@[i].kstack matches Some(st)
                        && st@.len() == STACK_SIZE && st@[16376] == (func % 256) as u8 && st@[16377]
                        == ((func / 0x100) % 256) as u8 && st@[16378] == ((func / 0x10000)
                        % 256) as u8 && st@[16379] == ((func / 0x1000000) % 256) as u8 && st@[16380]
                        == ((func / 0x100000000) % 256) as u8 && st@[16381] == ((func
                        / 0x10000000000) % 256) as u8 && st@[16382] == ((func / 0x1000000000000)
                        % 256) as u8 && st@[16383] == ((func / 0x100000000000000) % 256) as u8)
                        && final(self).list@ == old(self).list@.insert(i, final(self).list@[i])
            },
    {
        let curr_pgtbl: u64 = match self.index_of(self.current_task) {
            Some(c) => {
                proof {
                    assert(self.list@[c as int].id.num == self.current_task.num);
                    assert(self.spec_task_index(self.current_task.num) == c as int) by {
                        let k = self.spec_task_index(self.current_task.num);
                        assert(0 <= k < self.list@.len() && self.list@[k].id.num
                            == self.current_task.num);
                    }
                }
                self.list[c].arch_state.page_table
            },
            None => {
                proof {
                    assert(false);
                }
                0
            },
        };
        let new_id = match self.new_task() {
            Ok(id) => id,
            Err(e) => {
                return Err(e);
            },
        };
        let ghost mid = *self;
        let idx = match self.index_of(new_id) {
            Some(i) => i,
            None => {
                proof {
                    assert(false);
                }
                0
            },
        };
        let ghost l0 = self.list@;
        let mut new_task = self.list.remove(idx);
        new_task.arch_state.set_page_table(curr_pgtbl);

        let mut stack: Vec<u8> = Vec::new();
        let mut k: u64 = 0;
        while k < STACK_SIZE
            invariant
                k <= STACK_SIZE,
                stack@.len() == k,
            decreases STACK_SIZE - k,
        {
            stack.push(0);
            k = k + 1;
        }
        stack[16376] = (func % 256) as u8;
        stack[16377] = ((func / 0x100) % 256) as u8;
        stack[16378] = ((func / 0x10000) % 256) as u8;
        stack[16379] = ((func / 0x1000000) % 256) as u8;
        stack[16380] = ((func / 0x100000000) % 256) as u8;
        stack[16381] = ((func / 0x10000000000) % 256) as u8;
        stack[16382] = ((func / 0x1000000000000) % 256) as u8;
        stack[16383] = ((func / 0x100000000000000) % 256) as u8;

        new_task.arch_state.set_stack(STACK_SIZE - 8);
        new_task.kstack = Some(stack);
        new_task.runstate = RunState::RUNNABLE;
        let ghost nt = new_task;
        self.list.insert(idx, new_task);
        proof {
            assert(self.list@ =~= l0.update(idx as int, nt));
            lemma_same_ids_wf(l0, self.list@, idx as int);
            assert(self.list@[idx as int] == nt);
            assert forall|x: u64|
                #[trigger] self.spec_contains(x) <==> (old(self).spec_contains(x) || x
                    == new_id.num) by {
                if self.spec_contains(x) {
                    let kk = choose|kk: int|
                        0 <= kk < self.list@.len() && (#[trigger] self.list@[kk].id.num) == x;
                    assert(l0[kk].id.num == x);
                    assert(mid.spec_contains(x));
                }
                if old(self).spec_contains(x) || x == new_id.num {
                    assert(mid.spec_contains(x));
                    let kk = choose|kk: int| 0 <= kk < l0.len() && (#[trigger] l0[kk].id.num) == x;
                    assert(self.list@[kk].id.num == x);
                }
            }
            // The position `new_task` made free is the one the fresh task
            // was inserted at: ids are unique along the ordered list.
            let oldl = old(self).list@;
            assert(exists|j: int|
                0 <= j < l0.len() && (#[trigger] l0[j]).id == new_id && l0 == oldl.insert(
                    j,
                    l0[j],
                ));
            let j0 = choose|j: int|
                0 <= j < l0.len() && (#[trigger] l0[j]).id == new_id && l0 == oldl.insert(
                    j,
                    l0[j],
                );
            assert(mid.wf());
            assert(l0[j0].id.num == new_id.num && l0[idx as int].id.num == new_id.num);
            assert(l0.len() == oldl.len() + 1);
            oldl.insert_ensures(idx as int, l0[idx as int]);
            oldl.insert_ensures(idx as int, nt);
            assert(j0 == idx as int) by {
                if j0 < idx as int {
                    assert(l0[j0].id.num < l0[idx as int].id.num);
                } else if j0 > idx as int {
                    assert(l0[idx as int].id.num < l0[j0].id.num);
                }
            }
            assert forall|k: int| 0 <= k < self.list@.len() implies self.list@[k] == oldl.insert(
                idx as int,
                nt,
            )[k] by {
                if k < idx as int {
                    assert(l0[k] == oldl[k]);
                } else if k > idx as int {
                    assert(l0[k] == oldl[k - 1]);
                    assert(oldl.insert(idx as int, nt)[(k - 1) + 1] == oldl[k - 1]);
                }
            }
            assert(self.list@ =~= oldl.insert(idx as int, nt));
        }
        Ok(new_id)
    }

    /// The cooperative context switch at registry level: switches from the
    /// task at `current_index` to the one at `next_index`, updating both
    /// runstates, the current-task id, and the switch lock, exactly as
    /// `Task::context_switch` does on the two tasks.
    pub fn switch_context(&mut self, current_index: usize, next_index: usize)
        requires
            old(self).wf(),
            current_index < old(self).list@.len(),
            next_index < old(self).list@.len(),
            current_index != next_index,
            old(self).list@[next_index as int].runstate != RunState::BLOCKED,
            old(self).list@[next_index as int].runstate != RunState::RUNNING,
            !old(self).context_switch_lock,
        ensures
            final(self).wf(),
            final(self).taskid_counter == old(self).taskid_counter,
            final(self).list@.len() == old(self).list@.len(),
            !final(self).context_switch_lock,
            final(self).current_task == old(self).list@[next_index as int].id,
            forall|i: int|
                0 <= i < final(self).list@.len() && i != current_index && i != next_index
                    ==> #[trigger] final(self).list@[i] == old(self).list@[i],
            final(self).list@[current_index as int].runstate == RunState::RUNNABLE,
            final(self).list@[current_index as int].id == old(self).list@[current_index as int].id,
            final(self).list@[current_index as int].arch_state == old(self).list@[current_index as int].arch_state,
            final(self).list@[current_index as int].kstack == old(self).list@[current_index as int].kstack,
            final(self).list@[next_index as int].runstate == RunState::RUNNING,
            final(self).list@[next_index as int].id == old(self).list@[next_index as int].id,
            final(self).list@[next_index as int].arch_state == old(self).list@[next_index as int].arch_state,
            final(self).list@[next_index as int].kstack == old(self).list@[next_index as int].kstack,
    {
        let ghost l0 = self.list@;
        if current_index < next_index {
            let mut t_next = self.list.remove(next_index);
            let mut t_cur = self.list.remove(current_index);
            t_cur.context_switch(&mut t_next, &mut self.context_switch_lock, &mut self.current_task);
            self.list.insert(current_index, t_cur);
            self.list.insert(next_index, t_next);
            proof {
                let ghost cg = t_cur;
                let ghost ng = t_next;
                assert(self.list@ =~= l0.update(current_index as int, cg).update(
                    next_index as int,
                    ng,
                ));
                lemma_same_ids_wf2(l0, self.list@, current_index as int, next_index as int);
            }
        } else {
            let mut t_cur = self.list.remove(current_index);
            let mut t_next = self.list.remove(next_index);
            t_cur.context_switch(&mut t_next, &mut self.context_switch_lock, &mut self.current_task);
            self.list.insert(next_index, t_next);
            self.list.insert(current_index, t_cur);
            proof {
                let ghost cg = t_cur;
                let ghost ng = t_next;
                assert(self.list@ =~= l0.update(current_index as int, cg).update(
                    next_index as int,
                    ng,
                ));
                lemma_same_ids_wf2(l0, self.list@, current_index as int, next_index as int);
            }
        }
    }
}

/// A sequence that differs from a strictly id-ordered one only at one
/// position, with the same id there, is still strictly id-ordered.
proof fn lemma_same_ids_wf(l0: Seq<Task>, l1: Seq<Task>, i: int)
    requires
        forall|a: int, b: int| 0 <= a < b < l0.len() ==> #[trigger] l0[a].id.num < #[trigger] l0[b].id.num,
        l1.len() == l0.len(),
        0 <= i < l0.len(),
        forall|j: int| 0 <= j < l0.len() && j != i ==> l1[j] == l0[j],
        l1[i].id == l0[i].id,
    ensures
        forall|a: int, b: int| 0 <= a < b < l1.len() ==> #[trigger] l1[a].id.num < #[trigger] l1[b].id.num,
{
    assert forall|a: int, b: int| 0 <= a < b < l1.len() implies #[trigger] l1[a].id.num
        < #[trigger] l1[b].id.num by {
        assert(l1[a].id == l0[a].id);
        assert(l1[b].id == l0[b].id);
    }
}

/// As `lemma_same_ids_wf`, for two positions.
proof fn lemma_same_ids_wf2(l0: Seq<Task>, l1: Seq<Task>, i: int, j: int)
    requires
        forall|a: int, b: int| 0 <= a < b < l0.len() ==> #[trigger] l0[a].id.num < #[trigger] l0[b].id.num,
        l1.len() == l0.len(),
        0 <= i < l0.len(),
        0 <= j < l0.len(),
        forall|k: int| 0 <= k < l0.len() && k != i && k != j ==> l1[k] == l0[k],
        l1[i].id == l0[i].id,
        l1[j].id == l0[j].id,
    ensures
        forall|a: int, b: int| 0 <= a < b < l1.len() ==> #[trigger] l1[a].id.num < #[trigger] l1[b].id.num,
{
    assert forall|a: int, b: int| 0 <= a < b < l1.len() implies #[trigger] l1[a].id.num
        < #[trigger] l1[b].id.num by {
        assert(l1[a].id == l0[a].id);
        assert(l1[b].id == l0[b].id);
    }
}

} // verus!
