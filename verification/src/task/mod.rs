//! Task management: the list of loaded tasks, which one runs, switching
//! between them, and per-task system-call counts and memory mappings.
use vstd::prelude::*;
use crate::config::{MAX_APP_NUM, MAX_SYSCALL_NUM, PAGE_SIZE};
use crate::mm::{MemorySet, VirtAddr, VirtPageNum, MapArea, ceil_spec, floor_spec, permission_from_prot, prot_to_perm};
use crate::trap::TrapContext;
use crate::task::task::{TaskControlBlock, TaskStatus, brk_changed, brk_fits, same_but_memory};

pub mod deadlock;
pub mod id;
pub mod task;
pub mod process;
pub mod manager;

verus! {

/// The changing part of the task manager.
pub struct TaskManagerInner {
    /// The loaded tasks.
    pub tasks: Vec<TaskControlBlock>,
    /// Index of the running task.
    pub current_task: usize,
    /// How often each task made each system call: one row per task slot,
    /// one column per system-call id.
    pub syscall_counters: Vec<Vec<usize>>,
}

/// The task manager: the loaded tasks and which of them runs.
pub struct TaskManager {
    /// Number of loaded tasks.
    pub num_app: usize,
    /// The changing part.
    pub inner: TaskManagerInner,
}

/// Position `k` of the round that starts just after task `cur`, among `n` tasks.
pub open spec fn round_pos(cur: int, k: int, n: int) -> int {
    (cur + 1 + k) % n
}

/// Task `id` is the first ready task of the round after `cur`.
pub open spec fn is_next_ready(tasks: Seq<TaskControlBlock>, cur: int, id: int) -> bool {
    let n = tasks.len() as int;
    exists|k: int|
        #![trigger round_pos(cur, k, n)]
        0 <= k < n && id == round_pos(cur, k, n) && tasks[id].inner.task_status == TaskStatus::Ready
            && forall|k2: int| 0 <= k2 < k ==> tasks[#[trigger] round_pos(cur, k2, n)].inner.task_status != TaskStatus::Ready
}

/// Some task is ready.
pub open spec fn any_ready(tasks: Seq<TaskControlBlock>) -> bool {
    exists|i: int| 0 <= i < tasks.len() && #[trigger] tasks[i].inner.task_status == TaskStatus::Ready
}

/// `b` is `a` with only the status of task `i` changed to `status`.
pub open spec fn status_set(a: Seq<TaskControlBlock>, b: Seq<TaskControlBlock>, i: int, status: TaskStatus) -> bool {
    &&& b.len() == a.len()
    &&& b[i].inner.task_status == status
    &&& b[i].pid == a[i].pid
    &&& b[i].kernel_stack == a[i].kernel_stack
    &&& same_but_status(&b[i].inner, &a[i].inner)
    &&& forall|k: int| 0 <= k < a.len() && k != i ==> #[trigger] b[k] == a[k]
}

/// Every field of `a` and `b` but the status agrees.
pub open spec fn same_but_status(a: &crate::task::task::TaskControlBlockInner, b: &crate::task::task::TaskControlBlockInner) -> bool {
    &&& a.trap_cx == b.trap_cx
    &&& a.base_size == b.base_size
    &&& a.memory_set@ == b.memory_set@
    &&& a.memory_set.token_spec() == b.memory_set.token_spec()
    &&& a.parent == b.parent
    &&& a.children@ == b.children@
    &&& a.exit_code == b.exit_code
    &&& a.heap_bottom == b.heap_bottom
    &&& a.program_brk == b.program_brk
    &&& a.stride == b.stride
    &&& a.pass == b.pass
    &&& a.priority == b.priority
    &&& a.res == b.res
}

/// Some page in `[lo, hi)` is not mapped in `ms`.
pub open spec fn range_has_unmapped(ms: &MemorySet, lo: int, hi: int) -> bool {
    exists|vpn: int| lo <= vpn < hi && !#[trigger] ms.mapped(vpn)
}

/// Some page in `[lo, hi)` is mapped in `ms`.
pub open spec fn range_has_mapped_page(ms: &MemorySet, lo: int, hi: int) -> bool {
    exists|vpn: int| lo <= vpn < hi && #[trigger] ms.mapped(vpn)
}

impl TaskManager {
    /// The manager is consistent: one task per application, a valid running
    /// task when there is any task, and a full table of system-call counters.
    pub open spec fn wf(&self) -> bool {
        &&& self.inner.tasks.len() == self.num_app
        &&& self.num_app > 0 ==> self.inner.current_task < self.num_app
        &&& self.num_app == 0 ==> self.inner.current_task == 0
        &&& self.inner.syscall_counters.len() == MAX_APP_NUM
        &&& forall|i: int| 0 <= i < MAX_APP_NUM ==> (#[trigger] self.inner.syscall_counters@[i]).len() == MAX_SYSCALL_NUM
    }

    /// The running task.
    pub open spec fn current(&self) -> TaskControlBlock {
        self.inner.tasks@[self.inner.current_task as int]
    }

    /// A manager of the given tasks, with the first one current and every
    /// system-call count zero.
    pub fn new(tasks: Vec<TaskControlBlock>) -> (tm: Self)
        ensures
            tm.wf(),
            tm.inner.tasks@ == tasks@,
            tm.inner.current_task == 0,
            forall|i: int, j: int| 0 <= i < MAX_APP_NUM && 0 <= j < MAX_SYSCALL_NUM ==> #[trigger] tm.inner.syscall_counters@[i]@[j] == 0,
    {
        let num_app = tasks.len();
        let mut syscall_counters: Vec<Vec<usize>> = Vec::new();
        let mut i: usize = 0;
        while i < MAX_APP_NUM
            invariant
                0 <= i <= MAX_APP_NUM,
                syscall_counters.len() == i,
                forall|a: int| 0 <= a < i ==> (#[trigger] syscall_counters@[a]).len() == MAX_SYSCALL_NUM,
                forall|a: int, b: int| 0 <= a < i && 0 <= b < MAX_SYSCALL_NUM ==> #[trigger] syscall_counters@[a]@[b] == 0,
            decreases MAX_APP_NUM - i,
        {
            let mut row: Vec<usize> = Vec::new();
            let mut j: usize = 0;
            while j < MAX_SYSCALL_NUM
                invariant
                    0 <= j <= MAX_SYSCALL_NUM,
                    row.len() == j,
                    forall|b: int| 0 <= b < j ==> #[trigger] row@[b] == 0,
                decreases MAX_SYSCALL_NUM - j,
            {
                row.push(0);
                j = j + 1;
            }
            syscall_counters.push(row);
            i = i + 1;
        }
        TaskManager { num_app, inner: TaskManagerInner { tasks, current_task: 0, syscall_counters } }
    }

    /// Sets the status of task `i`.
    fn set_status(&mut self, i: usize, status: TaskStatus)
        requires
            i < old(self).inner.tasks.len(),
        ensures
            status_set(old(self).inner.tasks@, final(self).inner.tasks@, i as int, status),
            final(self).num_app == old(self).num_app,
            final(self).inner.current_task == old(self).inner.current_task,
            final(self).inner.syscall_counters@ == old(self).inner.syscall_counters@,
    {
        let mut tcb = self.inner.tasks.remove(i);
        tcb.inner.task_status = status;
        self.inner.tasks.insert(i, tcb);
        proof {
            let a = old(self).inner.tasks@;
            let b = self.inner.tasks@;
            assert forall|k: int| 0 <= k < a.len() && k != i implies #[trigger] b[k] == a[k] by {
                if k < i {
                    assert(b[k] == a.remove(i as int)[k]);
                } else {
                    assert(b[k] == a.remove(i as int)[k - 1]);
                }
            }
        }
    }

    /// Marks the first task running; the caller then switches to it.
    pub fn run_first_task(&mut self)
        requires
            old(self).wf(),
            old(self).num_app > 0,
        ensures
            final(self).wf(),
            status_set(old(self).inner.tasks@, final(self).inner.tasks@, 0, TaskStatus::Running),
            final(self).num_app == old(self).num_app,
            final(self).inner.current_task == old(self).inner.current_task,
            final(self).inner.syscall_counters@ == old(self).inner.syscall_counters@,
    {
        self.set_status(0, TaskStatus::Running);
    }

    /// Changes the status of the running task to `Ready`.
    pub fn mark_current_suspended(&mut self)
        requires
            old(self).wf(),
            old(self).num_app > 0,
        ensures
            final(self).wf(),
            status_set(old(self).inner.tasks@, final(self).inner.tasks@, old(self).inner.current_task as int, TaskStatus::Ready),
            final(self).num_app == old(self).num_app,
            final(self).inner.current_task == old(self).inner.current_task,
            final(self).inner.syscall_counters@ == old(self).inner.syscall_counters@,
    {
        let cur = self.inner.current_task;
        self.set_status(cur, TaskStatus::Ready);
    }

    /// Changes the status of the running task to `Zombie` (exited).
    pub fn mark_current_exited(&mut self)
        requires
            old(self).wf(),
            old(self).num_app > 0,
        ensures
            final(self).wf(),
            status_set(old(self).inner.tasks@, final(self).inner.tasks@, old(self).inner.current_task as int, TaskStatus::Zombie),
            final(self).num_app == old(self).num_app,
            final(self).inner.current_task == old(self).inner.current_task,
            final(self).inner.syscall_counters@ == old(self).inner.syscall_counters@,
    {
        let cur = self.inner.current_task;
        self.set_status(cur, TaskStatus::Zombie);
    }

    /// The first ready task in the round that starts just after the running
    /// task and wraps around to it; `None` when no task is ready.
    pub fn find_next_task(&self) -> (next: Option<usize>)
        requires
            self.wf(),
        ensures
            match next {
                Some(id) => is_next_ready(self.inner.tasks@, self.inner.current_task as int, id as int),
                None => !any_ready(self.inner.tasks@),
            },
    {
        let current = self.inner.current_task;
        let n = self.num_app;
        let ghost tasks = self.inner.tasks@;
        let mut k: usize = 0;
        while k < n
            invariant
                self.wf(),
                n == self.num_app,
                current == self.inner.current_task,
                tasks == self.inner.tasks@,
                0 <= k <= n,
                forall|k2: int| 0 <= k2 < k ==> tasks[#[trigger] round_pos(current as int, k2, n as int)].inner.task_status != TaskStatus::Ready,
            decreases n - k,
        {
            // position `k` of the round, (current + 1 + k) % n, without overflow
            let id = if k < n - 1 - current { current + 1 + k } else { k - (n - 1 - current) };
            proof {
                if k < n - 1 - current {
                    vstd::arithmetic::div_mod::lemma_small_mod(id as nat, n as nat);
                } else {
                    vstd::arithmetic::div_mod::lemma_mod_add_multiples_vanish(id as int, n as int);
                    vstd::arithmetic::div_mod::lemma_small_mod(id as nat, n as nat);
                }
                assert(id as int == round_pos(current as int, k as int, n as int));
            }
            if self.inner.tasks[id].inner.task_status == TaskStatus::Ready {
                return Some(id);
            }
            k = k + 1;
        }
        proof {
            assert forall|i: int| 0 <= i < tasks.len() implies #[trigger] tasks[i].inner.task_status != TaskStatus::Ready by {
                let k2 = if i > current { i - current - 1 } else { i + n - current - 1 };
                assert(round_pos(current as int, k2, n as int) == i) by {
                    if i <= current {
                        assert((current + 1 + k2) == i + n);
                        vstd::arithmetic::div_mod::lemma_mod_add_multiples_vanish(i, n as int);
                        vstd::arithmetic::div_mod::lemma_small_mod(i as nat, n as nat);
                    } else {
                        vstd::arithmetic::div_mod::lemma_small_mod(i as nat, n as nat);
                    }
                }
            }
        }
        None
    }

    /// The token of the running task's address space.
    pub fn get_current_token(&self) -> (token: usize)
        requires
            self.wf(),
            self.num_app > 0,
        ensures
            token == self.current().inner.memory_set.token_spec(),
    {
        self.inner.tasks[self.inner.current_task].get_user_token()
    }

    /// The trap context of the running task.
    pub fn get_current_trap_cx(&mut self) -> (cx: &mut TrapContext)
        requires
            old(self).wf(),
            old(self).num_app > 0,
        ensures
            *cx == old(self).current().inner.trap_cx,
            final(self).num_app == old(self).num_app,
            final(self).inner.current_task == old(self).inner.current_task,
            final(self).inner.syscall_counters@ == old(self).inner.syscall_counters@,
            final(self).inner.tasks@ == old(self).inner.tasks@.update(
                old(self).inner.current_task as int,
                TaskControlBlock {
                    inner: crate::task::task::TaskControlBlockInner { trap_cx: *final(cx), ..old(self).current().inner },
                    ..old(self).current()
                },
            ),
    {
        let cur = self.inner.current_task;
        &mut self.inner.tasks[cur].inner.trap_cx
    }

    /// Moves the running task's program break by `size` bytes (see
    /// `TaskControlBlock::change_program_brk`).
    pub fn change_current_program_brk(&mut self, size: i32) -> (old_brk: Option<usize>)
        requires
            old(self).wf(),
            old(self).num_app > 0,
            brk_fits(old(self).current().inner.program_brk, size),
        ensures
            final(self).wf(),
            final(self).num_app == old(self).num_app,
            final(self).inner.current_task == old(self).inner.current_task,
            final(self).inner.syscall_counters@ == old(self).inner.syscall_counters@,
            forall|k: int| 0 <= k < old(self).num_app && k != old(self).inner.current_task ==> #[trigger] final(self).inner.tasks@[k] == old(self).inner.tasks@[k],
            brk_changed(old(self).current(), final(self).current(), size, old_brk),
    {
        let cur = self.inner.current_task;
        self.inner.tasks[cur].change_program_brk(size)
    }

    /// Switches to the first ready task of the round after the running one:
    /// marks it running, makes it current, and returns `(from, to)` for the
    /// context switch. Some task must be ready: when none is, every
    /// application has completed and the kernel stops.
    pub fn run_next_task(&mut self) -> (switch: (usize, usize))
        requires
            old(self).wf(),
            any_ready(old(self).inner.tasks@),
        ensures
            final(self).wf(),
            final(self).num_app == old(self).num_app,
            final(self).inner.syscall_counters@ == old(self).inner.syscall_counters@,
            switched_to_next(old(self).inner.tasks@, old(self).inner.current_task as int, final(self), switch),
    {
        let next = self.find_next_task().unwrap();
        let current = self.inner.current_task;
        self.set_status(next, TaskStatus::Running);
        self.inner.current_task = next;
        (current, next)
    }

    /// Records `exit_code` as the running task's exit code.
    fn set_current_exit_code(&mut self, exit_code: i32)
        requires
            old(self).wf(),
            old(self).num_app > 0,
        ensures
            final(self).wf(),
            final(self).num_app == old(self).num_app,
            final(self).inner.current_task == old(self).inner.current_task,
            final(self).inner.syscall_counters@ == old(self).inner.syscall_counters@,
            final(self).inner.tasks@ == with_exit_code(old(self).inner.tasks@, old(self).inner.current_task as int, exit_code),
    {
        let cur = self.inner.current_task;
        self.inner.tasks[cur].inner.exit_code = exit_code;
    }

    /// How often the running task made system call `syscall_id`.
    pub fn get_syscall_count(&self, syscall_id: usize) -> (count: usize)
        requires
            self.wf(),
            self.inner.current_task < MAX_APP_NUM,
            syscall_id < MAX_SYSCALL_NUM,
        ensures
            count == self.inner.syscall_counters@[self.inner.current_task as int]@[syscall_id as int],
    {
        let current = self.inner.current_task;
        self.inner.syscall_counters[current][syscall_id]
    }

    /// Counts one more use of system call `syscall_id` by the running task.
    pub fn record_syscall_count(&mut self, syscall_id: usize)
        requires
            old(self).wf(),
            old(self).inner.current_task < MAX_APP_NUM,
            syscall_id < MAX_SYSCALL_NUM,
            old(self).inner.syscall_counters@[old(self).inner.current_task as int]@[syscall_id as int] < usize::MAX,
        ensures
            final(self).wf(),
            final(self).num_app == old(self).num_app,
            final(self).inner.current_task == old(self).inner.current_task,
            final(self).inner.tasks@ == old(self).inner.tasks@,
            ({
                let c = old(self).inner.current_task as int;
                let m = old(self).inner.syscall_counters.deep_view();
                final(self).inner.syscall_counters.deep_view() == m.update(c, m[c].update(syscall_id as int, (m[c][syscall_id as int] + 1) as usize))
            }),
    {
        let current = self.inner.current_task;
        let ghost m = self.inner.syscall_counters@;
        let ghost md = self.inner.syscall_counters.deep_view();
        let v = self.inner.syscall_counters[current][syscall_id];
        self.inner.syscall_counters[current].set(syscall_id, v + 1);
        proof {
            let c = current as int;
            assert(self.inner.syscall_counters@[c]@ =~= m[c]@.update(syscall_id as int, (v + 1) as usize));
            assert(self.inner.syscall_counters.deep_view() =~~= md.update(c, md[c].update(syscall_id as int, (v + 1) as usize)));
            assert forall|i: int| 0 <= i < MAX_APP_NUM implies (#[trigger] self.inner.syscall_counters@[i]).len() == MAX_SYSCALL_NUM by {
                if i != c {
                    assert(self.inner.syscall_counters@[i] == m[i]);
                }
            }
        }
    }

    /// Maps `len` bytes from the page-aligned address `start` into the
    /// running task's address space with protection `prot` (bit 0 read,
    /// bit 1 write, bit 2 execute), as one new area over the pages from
    /// `floor(start)` to `ceil(start + len)`. Returns 0 on success; -1, with
    /// nothing changed, when `start` is not page-aligned, `prot` has bits
    /// other than the low three or none of them, or one of those pages is
    /// already mapped.
    #[verifier::loop_isolation(false)]
    pub fn mmap(&mut self, start: usize, len: usize, prot: usize) -> (r: isize)
        requires
            old(self).wf(),
            old(self).num_app > 0,
            start + len <= usize::MAX,
        ensures
            final(self).wf(),
            mmap_result(old(self), final(self), start, len, prot, r),
    {
        if (start % PAGE_SIZE) != 0 {
            return -1;
        }
        if (prot & !7usize) != 0 {
            return -1;
        }
        if (prot & 7) == 0 {
            return -1;
        }
        let permission = permission_from_prot(prot);
        let current = self.inner.current_task;
        let start_va = VirtAddr::from_usize(start);
        let end_va = VirtAddr::from_usize(start + len);
        let start_vpn = start_va.floor();
        let end_vpn = end_va.ceil();
        let memory_set = &self.inner.tasks[current].inner.memory_set;
        let mut vpn = start_vpn.0;
        while vpn < end_vpn.0
            invariant
                start_vpn.0 <= vpn,
                forall|v: int| start_vpn.0 <= v < vpn ==> !#[trigger] memory_set.mapped(v),
            decreases end_vpn.0 - vpn,
        {
            if memory_set.translate(VirtPageNum(vpn)).is_some() {
                return -1;
            }
            vpn = vpn + 1;
        }
        self.inner.tasks[current].inner.memory_set.insert_framed_area(start_va, end_va, permission);
        0
    }

    /// Unmaps the pages from `floor(start)` to `ceil(start + len)` from the
    /// running task's address space. Returns 0 on success; -1, with nothing
    /// changed, when `start` is not page-aligned or one of those pages is
    /// not mapped.
    #[verifier::loop_isolation(false)]
    pub fn munmap(&mut self, start: usize, len: usize) -> (r: isize)
        requires
            old(self).wf(),
            old(self).num_app > 0,
            start + len <= usize::MAX,
        ensures
            final(self).wf(),
            munmap_result(old(self), final(self), start, len, r),
    {
        if (start % PAGE_SIZE) != 0 {
            return -1;
        }
        let current = self.inner.current_task;
        let start_va = VirtAddr::from_usize(start);
        let end_va = VirtAddr::from_usize(start + len);
        let start_vpn = start_va.floor();
        let end_vpn = end_va.ceil();
        let memory_set = &self.inner.tasks[current].inner.memory_set;
        let mut vpn = start_vpn.0;
        while vpn < end_vpn.0
            invariant
                start_vpn.0 <= vpn,
                forall|v: int| start_vpn.0 <= v < vpn ==> #[trigger] memory_set.mapped(v),
            decreases end_vpn.0 - vpn,
        {
            if !memory_set.translate(VirtPageNum(vpn)).is_some() {
                return -1;
            }
            vpn = vpn + 1;
        }
        self.inner.tasks[current].inner.memory_set.munmap(start_va, end_va);
        0
    }
}

/// Marks the first task running; the caller then switches to it.
pub fn run_first_task(tm: &mut TaskManager)
    requires
        old(tm).wf(),
        old(tm).num_app > 0,
    ensures
        final(tm).wf(),
        status_set(old(tm).inner.tasks@, final(tm).inner.tasks@, 0, TaskStatus::Running),
        final(tm).inner.current_task == old(tm).inner.current_task,
        final(tm).inner.syscall_counters@ == old(tm).inner.syscall_counters@,
{
    tm.run_first_task();
}

/// Suspends the running task and switches to the next ready one (see
/// `TaskManager::run_next_task`). There is always one: the running task
/// itself, now ready, closes the round.
pub fn suspend_current_and_run_next(tm: &mut TaskManager) -> (switch: (usize, usize))
    requires
        old(tm).wf(),
        old(tm).num_app > 0,
    ensures
        final(tm).wf(),
        final(tm).inner.syscall_counters@ == old(tm).inner.syscall_counters@,
        suspended_then_switched(old(tm), final(tm), switch),
{
    let ghost before = tm.inner.tasks@;
    let ghost cur = tm.inner.current_task as int;
    tm.mark_current_suspended();
    proof {
        assert(tm.inner.tasks@[cur].inner.task_status == TaskStatus::Ready);
        assert(any_ready(tm.inner.tasks@));
    }
    let ghost mid = tm.inner.tasks@;
    let switch = tm.run_next_task();
    proof {
        assert(status_set(before, mid, cur, TaskStatus::Ready));
    }
    switch
}

/// Exits the running task with `exit_code`: records the code, marks the
/// task exited, and switches to the next ready task (see
/// `TaskManager::run_next_task`). Another task must be ready: when none
/// is, every application has completed and the kernel stops.
pub fn exit_current_and_run_next(tm: &mut TaskManager, exit_code: i32) -> (switch: (usize, usize))
    requires
        old(tm).wf(),
        old(tm).num_app > 0,
        other_ready(old(tm).inner.tasks@, old(tm).inner.current_task as int),
    ensures
        final(tm).wf(),
        final(tm).inner.syscall_counters@ == old(tm).inner.syscall_counters@,
        exited_then_switched(old(tm), final(tm), exit_code, switch),
{
    let ghost cur = tm.inner.current_task as int;
    tm.set_current_exit_code(exit_code);
    let ghost coded = tm.inner.tasks@;
    tm.mark_current_exited();
    let ghost mid = tm.inner.tasks@;
    proof {
        let k = choose|k: int| 0 <= k < old(tm).inner.tasks@.len() && k != cur
            && #[trigger] old(tm).inner.tasks@[k].inner.task_status == TaskStatus::Ready;
        assert(mid[k] == old(tm).inner.tasks@[k]);
        assert(any_ready(mid));
    }
    let switch = tm.run_next_task();
    proof {
        assert(status_set(coded, mid, cur, TaskStatus::Zombie));
    }
    switch
}

/// Some task other than task `cur` is ready.
pub open spec fn other_ready(tasks: Seq<TaskControlBlock>, cur: int) -> bool {
    exists|k: int| 0 <= k < tasks.len() && k != cur && #[trigger] tasks[k].inner.task_status == TaskStatus::Ready
}

/// `tasks` with the exit code of task `i` set to `exit_code`.
pub open spec fn with_exit_code(tasks: Seq<TaskControlBlock>, i: int, exit_code: i32) -> Seq<TaskControlBlock> {
    tasks.update(
        i,
        TaskControlBlock {
            inner: crate::task::task::TaskControlBlockInner { exit_code, ..tasks[i].inner },
            ..tasks[i]
        },
    )
}

/// `b` is the manager that switched from task `cur` of the tasks `mid` as
/// `switch` says: to the first ready task of the round after `cur`, which
/// became current and running.
pub open spec fn switched_to_next(mid: Seq<TaskControlBlock>, cur: int, b: &TaskManager, switch: (usize, usize)) -> bool {
    &&& switch.0 == cur
    &&& is_next_ready(mid, cur, switch.1 as int)
    &&& b.inner.current_task == switch.1
    &&& status_set(mid, b.inner.tasks@, switch.1 as int, TaskStatus::Running)
}

/// `b` is `a` after the running task was marked ready and the manager
/// switched to the first ready task of the round after it.
pub open spec fn suspended_then_switched(a: &TaskManager, b: &TaskManager, switch: (usize, usize)) -> bool {
    let cur = a.inner.current_task as int;
    exists|mid: Seq<TaskControlBlock>|
        #![trigger status_set(a.inner.tasks@, mid, cur, TaskStatus::Ready)]
        status_set(a.inner.tasks@, mid, cur, TaskStatus::Ready) && switched_to_next(mid, cur, b, switch)
}

/// `b` is `a` after the running task got exit code `exit_code` and was
/// marked exited, and the manager switched to the first ready task of the
/// round after it.
pub open spec fn exited_then_switched(a: &TaskManager, b: &TaskManager, exit_code: i32, switch: (usize, usize)) -> bool {
    let cur = a.inner.current_task as int;
    let coded = with_exit_code(a.inner.tasks@, cur, exit_code);
    exists|mid: Seq<TaskControlBlock>|
        #![trigger status_set(coded, mid, cur, TaskStatus::Zombie)]
        status_set(coded, mid, cur, TaskStatus::Zombie) && switched_to_next(mid, cur, b, switch)
}

/// The token of the running task's address space.
pub fn current_user_token(tm: &TaskManager) -> (token: usize)
    requires
        tm.wf(),
        tm.num_app > 0,
    ensures
        token == tm.current().inner.memory_set.token_spec(),
{
    tm.get_current_token()
}

/// The trap context of the running task.
pub fn current_trap_cx(tm: &mut TaskManager) -> (cx: &mut TrapContext)
    requires
        old(tm).wf(),
        old(tm).num_app > 0,
    ensures
        *cx == old(tm).current().inner.trap_cx,
        final(tm).inner.current_task == old(tm).inner.current_task,
        final(tm).inner.tasks@ == old(tm).inner.tasks@.update(
            old(tm).inner.current_task as int,
            TaskControlBlock {
                inner: crate::task::task::TaskControlBlockInner { trap_cx: *final(cx), ..old(tm).current().inner },
                ..old(tm).current()
            },
        ),
{
    tm.get_current_trap_cx()
}

/// Moves the running task's program break by `size` bytes.
pub fn change_program_brk(tm: &mut TaskManager, size: i32) -> (old_brk: Option<usize>)
    requires
        old(tm).wf(),
        old(tm).num_app > 0,
        brk_fits(old(tm).current().inner.program_brk, size),
    ensures
        final(tm).wf(),
        final(tm).inner.current_task == old(tm).inner.current_task,
        forall|k: int| 0 <= k < old(tm).num_app && k != old(tm).inner.current_task ==> #[trigger] final(tm).inner.tasks@[k] == old(tm).inner.tasks@[k],
        brk_changed(old(tm).current(), final(tm).current(), size, old_brk),
{
    tm.change_current_program_brk(size)
}

/// How often the running task made system call `syscall_id`.
pub fn get_syscall_count(tm: &TaskManager, syscall_id: usize) -> (count: usize)
    requires
        tm.wf(),
        tm.inner.current_task < MAX_APP_NUM,
        syscall_id < MAX_SYSCALL_NUM,
    ensures
        count == tm.inner.syscall_counters@[tm.inner.current_task as int]@[syscall_id as int],
{
    tm.get_syscall_count(syscall_id)
}

/// Counts one more use of system call `syscall_id` by the running task.
pub fn record_syscall_count(tm: &mut TaskManager, syscall_id: usize)
    requires
        old(tm).wf(),
        old(tm).inner.current_task < MAX_APP_NUM,
        syscall_id < MAX_SYSCALL_NUM,
        old(tm).inner.syscall_counters@[old(tm).inner.current_task as int]@[syscall_id as int] < usize::MAX,
    ensures
        final(tm).wf(),
        final(tm).inner.current_task == old(tm).inner.current_task,
        final(tm).inner.tasks@ == old(tm).inner.tasks@,
        ({
            let c = old(tm).inner.current_task as int;
            let m = old(tm).inner.syscall_counters.deep_view();
            final(tm).inner.syscall_counters.deep_view() == m.update(c, m[c].update(syscall_id as int, (m[c][syscall_id as int] + 1) as usize))
        }),
{
    tm.record_syscall_count(syscall_id);
}

/// Every task but the running one, the running task's identity and every
/// field but its address space, and the rest of the manager stay as in `a`.
pub open spec fn only_current_memory_changed(a: &TaskManager, b: &TaskManager) -> bool {
    &&& b.num_app == a.num_app
    &&& b.inner.current_task == a.inner.current_task
    &&& b.inner.syscall_counters@ == a.inner.syscall_counters@
    &&& forall|k: int| 0 <= k < a.num_app && k != a.inner.current_task ==> #[trigger] b.inner.tasks@[k] == a.inner.tasks@[k]
    &&& b.current().pid == a.current().pid
    &&& b.current().kernel_stack == a.current().kernel_stack
    &&& same_but_memory(&b.current().inner, &a.current().inner)
    &&& b.current().inner.program_brk == a.current().inner.program_brk
}

/// The first page of an `mmap`/`munmap` range.
pub open spec fn range_lo(start: usize) -> int {
    floor_spec(VirtAddr::mask_spec(start))
}

/// The page just past an `mmap`/`munmap` range.
pub open spec fn range_hi(start: usize, len: usize) -> int {
    ceil_spec(VirtAddr::mask_spec((start + len) as usize))
}

/// `b` is `a` after `mmap(start, len, prot)` returned `r`.
pub open spec fn mmap_result(a: &TaskManager, b: &TaskManager, start: usize, len: usize, prot: usize, r: isize) -> bool {
    let lo = range_lo(start);
    let hi = range_hi(start, len);
    &&& only_current_memory_changed(a, b)
    &&& r == 0 || r == -1
    &&& r == -1 <==> (start % PAGE_SIZE != 0 || prot & !7usize != 0 || prot & 7 == 0
        || range_has_mapped_page(&a.current().inner.memory_set, lo, hi))
    &&& r == -1 ==> b.current().inner.memory_set@ == a.current().inner.memory_set@
    &&& r == 0 ==> b.current().inner.memory_set@ == a.current().inner.memory_set@.push(
        MapArea { start_vpn: lo as usize, end_vpn: hi as usize, perm: prot_to_perm(prot) },
    )
}

/// `b` is `a` after `munmap(start, len)` returned `r`.
pub open spec fn munmap_result(a: &TaskManager, b: &TaskManager, start: usize, len: usize, r: isize) -> bool {
    let lo = range_lo(start);
    let hi = range_hi(start, len);
    &&& only_current_memory_changed(a, b)
    &&& r == 0 || r == -1
    &&& r == -1 <==> (start % PAGE_SIZE != 0 || range_has_unmapped(&a.current().inner.memory_set, lo, hi))
    &&& r == -1 ==> b.current().inner.memory_set@ == a.current().inner.memory_set@
    &&& r == 0 ==> forall|vpn: int|
        #![trigger b.current().inner.memory_set.mapped(vpn)]
        b.current().inner.memory_set.mapped(vpn) <==> (a.current().inner.memory_set.mapped(vpn) && !(lo <= vpn < hi))
}

/// Maps memory into the running task's address space (see `TaskManager::mmap`).
pub fn insert_mmap(tm: &mut TaskManager, start: usize, len: usize, permission: usize) -> (r: isize)
    requires
        old(tm).wf(),
        old(tm).num_app > 0,
        start + len <= usize::MAX,
    ensures
        final(tm).wf(),
        mmap_result(old(tm), final(tm), start, len, permission, r),
{
    tm.mmap(start, len, permission)
}

/// Unmaps memory from the running task's address space (see `TaskManager::munmap`).
pub fn delete_mmap(tm: &mut TaskManager, start: usize, len: usize) -> (r: isize)
    requires
        old(tm).wf(),
        old(tm).num_app > 0,
        start + len <= usize::MAX,
    ensures
        final(tm).wf(),
        munmap_result(old(tm), final(tm), start, len, r),
{
    tm.munmap(start, len)
}

/// An exited task is never switched to again right away: the task chosen
/// after an exit is another one, and it is running; the exited task keeps
/// the exit code it was given and is marked exited.
pub proof fn lemma_exit_switches_away(a: &TaskManager, b: &TaskManager, exit_code: i32, from: usize, to: usize)
    requires
        a.wf(),
        a.num_app > 0,
        exited_then_switched(a, b, exit_code, (from, to)),
    ensures
        to != from,
        b.inner.current_task == to,
        b.inner.tasks@[to as int].inner.task_status == TaskStatus::Running,
        b.inner.tasks@[from as int].inner.task_status == TaskStatus::Zombie,
        b.inner.tasks@[from as int].inner.exit_code == exit_code,
{
    let cur = a.inner.current_task as int;
    let coded = with_exit_code(a.inner.tasks@, cur, exit_code);
    let mid = choose|mid: Seq<TaskControlBlock>|
        #![trigger status_set(coded, mid, cur, TaskStatus::Zombie)]
        status_set(coded, mid, cur, TaskStatus::Zombie) && switched_to_next(mid, cur, b, (from, to));
    let n = mid.len() as int;
    let k = choose|k: int|
        #![trigger round_pos(cur, k, n)]
        0 <= k < n && to == round_pos(cur, k, n) && mid[to as int].inner.task_status == TaskStatus::Ready
            && forall|k2: int| 0 <= k2 < k ==> mid[#[trigger] round_pos(cur, k2, n)].inner.task_status != TaskStatus::Ready;
    assert(to != from);
    assert(b.inner.tasks@[from as int] == mid[from as int]);
    assert(coded[cur].inner.exit_code == exit_code);
}

/// A successful `mmap` maps every page of its range.
pub proof fn lemma_mmap_maps_range(a: &TaskManager, b: &TaskManager, start: usize, len: usize, prot: usize)
    requires
        mmap_result(a, b, start, len, prot, 0),
    ensures
        forall|vpn: int| range_lo(start) <= vpn < range_hi(start, len) ==> #[trigger] b.current().inner.memory_set.mapped(vpn),
{
    let ms = b.current().inner.memory_set@;
    let last = ms.len() - 1;
    assert forall|vpn: int| range_lo(start) <= vpn < range_hi(start, len) implies #[trigger] b.current().inner.memory_set.mapped(vpn) by {
        assert(ms[last].contains(vpn));
    }
}

/// On the running task, below the Sv39 limit, `mmap(start, len, prot)`
/// acts on the pages that hold the bytes `[start, start + len)`: from
/// `start / PAGE_SIZE` up to, not including,
/// `(start + len + PAGE_SIZE - 1) / PAGE_SIZE`. It succeeds exactly when
/// `start` is page-aligned, `prot` is allowed and none of those pages is
/// mapped, and then every one of them is mapped with the permission `prot`
/// asks for.
pub proof fn lemma_mmap_maps_byte_range(a: &TaskManager, b: &TaskManager, start: usize, len: usize, prot: usize, r: isize)
    requires
        mmap_result(a, b, start, len, prot, r),
        start + len <= usize::MAX,
        start + len < 0x80_0000_0000,
    ensures
        r == 0 <==> (start % PAGE_SIZE == 0 && prot & !7usize == 0 && prot & 7 != 0 && forall|vpn: int|
            start as int / PAGE_SIZE as int <= vpn < (start + len + PAGE_SIZE - 1) / PAGE_SIZE as int
                ==> !#[trigger] a.current().inner.memory_set.mapped(vpn)),
        r == 0 ==> forall|vpn: int|
            #[trigger] b.current().inner.memory_set.mapped(vpn) <==> (a.current().inner.memory_set.mapped(vpn)
                || start as int / PAGE_SIZE as int <= vpn < (start + len + PAGE_SIZE - 1) / PAGE_SIZE as int),
        r == 0 ==> b.current().inner.memory_set@.last().perm == prot_to_perm(prot),
{
    let lo = start as int / PAGE_SIZE as int;
    let hi = (start + len + PAGE_SIZE - 1) / PAGE_SIZE as int;
    assert(start as int % 0x80_0000_0000int == start);
    assert((start + len) as usize as int % 0x80_0000_0000int == start + len);
    assert(range_lo(start) == lo);
    assert(range_hi(start, len) == hi);
    let ms = a.current().inner.memory_set;
    assert(range_has_mapped_page(&ms, lo, hi) <==> !(forall|vpn: int| lo <= vpn < hi ==> !#[trigger] ms.mapped(vpn)));
    if r == 0 {
        let x = ms@;
        let m = b.current().inner.memory_set@;
        assert forall|vpn: int| #[trigger] b.current().inner.memory_set.mapped(vpn) <==> (ms.mapped(vpn) || lo <= vpn < hi) by {
            if b.current().inner.memory_set.mapped(vpn) {
                let i = choose|i: int| 0 <= i < m.len() && #[trigger] m[i].contains(vpn);
                if i < x.len() {
                    assert(x[i] == m[i]);
                }
            }
            if ms.mapped(vpn) {
                let i = choose|i: int| 0 <= i < x.len() && #[trigger] x[i].contains(vpn);
                assert(m[i] == x[i]);
            }
            if lo <= vpn < hi {
                assert(m[x.len() as int].contains(vpn));
            }
        }
    }
}

/// On the running task, below the Sv39 limit, `munmap(start, len)` acts on
/// the pages that hold the bytes `[start, start + len)`: from
/// `start / PAGE_SIZE` up to, not including,
/// `(start + len + PAGE_SIZE - 1) / PAGE_SIZE`. It succeeds exactly when
/// `start` is page-aligned and every one of those pages is mapped, and then
/// none of them is mapped any more while every other page keeps its state.
pub proof fn lemma_munmap_unmaps_byte_range(a: &TaskManager, b: &TaskManager, start: usize, len: usize, r: isize)
    requires
        munmap_result(a, b, start, len, r),
        start + len <= usize::MAX,
        start + len < 0x80_0000_0000,
    ensures
        r == 0 <==> (start % PAGE_SIZE == 0 && forall|vpn: int|
            start as int / PAGE_SIZE as int <= vpn < (start + len + PAGE_SIZE - 1) / PAGE_SIZE as int
                ==> #[trigger] a.current().inner.memory_set.mapped(vpn)),
        r == 0 ==> forall|vpn: int|
            #[trigger] b.current().inner.memory_set.mapped(vpn) <==> (a.current().inner.memory_set.mapped(vpn)
                && !(start as int / PAGE_SIZE as int <= vpn < (start + len + PAGE_SIZE - 1) / PAGE_SIZE as int)),
{
    let lo = start as int / PAGE_SIZE as int;
    let hi = (start + len + PAGE_SIZE - 1) / PAGE_SIZE as int;
    assert(start as int % 0x80_0000_0000int == start);
    assert((start + len) as usize as int % 0x80_0000_0000int == start + len);
    assert(range_lo(start) == lo);
    assert(range_hi(start, len) == hi);
    let ms = a.current().inner.memory_set;
    assert(range_has_unmapped(&ms, lo, hi) <==> !(forall|vpn: int| lo <= vpn < hi ==> #[trigger] ms.mapped(vpn)));
}

/// `munmap` undoes `mmap`: after a successful `mmap` of a range, `munmap`
/// of the same range succeeds and leaves exactly the pages that were
/// mapped before the `mmap`.
pub proof fn lemma_munmap_undoes_mmap(
    a: &TaskManager,
    b: &TaskManager,
    c: &TaskManager,
    start: usize,
    len: usize,
    prot: usize,
    r: isize,
)
    requires
        a.wf(),
        a.num_app > 0,
        mmap_result(a, b, start, len, prot, 0),
        munmap_result(b, c, start, len, r),
    ensures
        r == 0,
        forall|vpn: int| #[trigger] c.current().inner.memory_set.mapped(vpn) <==> a.current().inner.memory_set.mapped(vpn),
{
    lemma_mmap_maps_range(a, b, start, len, prot);
    let ms_a = a.current().inner.memory_set;
    let ms_b = b.current().inner.memory_set;
    let lo = range_lo(start);
    let hi = range_hi(start, len);
    assert(!range_has_unmapped(&ms_b, lo, hi));
    assert forall|vpn: int| #[trigger] c.current().inner.memory_set.mapped(vpn) <==> ms_a.mapped(vpn) by {
        if lo <= vpn < hi {
            if ms_a.mapped(vpn) {
                assert(range_has_mapped_page(&ms_a, lo, hi));
            }
        } else {
            if ms_b.mapped(vpn) {
                let i = choose|i: int| 0 <= i < ms_b@.len() && #[trigger] ms_b@[i].contains(vpn);
                if i < ms_a@.len() {
                    assert(ms_a@[i] == ms_b@[i]);
                    assert(ms_a@[i].contains(vpn));
                }
            }
            if ms_a.mapped(vpn) {
                let i = choose|i: int| 0 <= i < ms_a@.len() && #[trigger] ms_a@[i].contains(vpn);
                assert(ms_b@[i] == ms_a@[i]);
                assert(ms_b@[i].contains(vpn));
            }
        }
    }
}

/// Counting a system call makes its count, as `get_syscall_count` reads
/// it, one higher, and leaves every other count alone.
pub proof fn lemma_record_then_get(a: &TaskManager, b: &TaskManager, syscall_id: usize, other_task: int, other_id: int)
    requires
        a.wf(),
        a.inner.current_task < MAX_APP_NUM,
        b.wf(),
        syscall_id < MAX_SYSCALL_NUM,
        b.inner.current_task == a.inner.current_task,
        ({
            let c = a.inner.current_task as int;
            let m = a.inner.syscall_counters.deep_view();
            b.inner.syscall_counters.deep_view() == m.update(c, m[c].update(syscall_id as int, (m[c][syscall_id as int] + 1) as usize))
        }),
        a.inner.syscall_counters@[a.inner.current_task as int]@[syscall_id as int] < usize::MAX,
        0 <= other_task < MAX_APP_NUM,
        0 <= other_id < MAX_SYSCALL_NUM,
        other_task != a.inner.current_task || other_id != syscall_id,
    ensures
        b.inner.syscall_counters@[b.inner.current_task as int]@[syscall_id as int]
            == a.inner.syscall_counters@[a.inner.current_task as int]@[syscall_id as int] + 1,
        b.inner.syscall_counters@[other_task]@[other_id] == a.inner.syscall_counters@[other_task]@[other_id],
{
    let c = a.inner.current_task as int;
    let m = a.inner.syscall_counters.deep_view();
    let m2 = b.inner.syscall_counters.deep_view();
    assert(m[c] == a.inner.syscall_counters@[c].deep_view());
    assert(m2[c] == b.inner.syscall_counters@[c].deep_view());
    assert(m[other_task] == a.inner.syscall_counters@[other_task].deep_view());
    assert(m2[other_task] == b.inner.syscall_counters@[other_task].deep_view());
    assert(m[c][syscall_id as int] == a.inner.syscall_counters@[c]@[syscall_id as int]);
    assert(m2[c][syscall_id as int] == b.inner.syscall_counters@[c]@[syscall_id as int]);
    assert(m[other_task][other_id] == a.inner.syscall_counters@[other_task]@[other_id]);
    assert(m2[other_task][other_id] == b.inner.syscall_counters@[other_task]@[other_id]);
}

} // verus!
