//! Process control blocks: a process's threads, file descriptors and the
//! resource bookkeeping used for deadlock detection.
use vstd::prelude::*;
use crate::config::WORD_BYTES;
use crate::mm::MemorySet;
use crate::trap::TrapContext;
use crate::task::deadlock::{
    allocation_nonneg, can_finish, first_runnable, greedy_finish, greedy_finishes_all, has_safe_order,
    is_safe_order, lemma_distinct_in_range_missing_len, lemma_first_runnable, lemma_distinct_in_range_len,
    lemma_masked_sum_set, lemma_masked_sum_zero, lemma_order_sum_push, lemma_stuck_with_safe_order,
    masked_sum, matrices_wf, no_finished, order_sum, greedy_work_fits, work_fits, lemma_greedy_finish_step,
};
use std::collections::BTreeMap;
use crate::task::id::{KernelStack, PidHandle, RecycleAllocator, handed_out};
use crate::task::manager::{TaskManager, enqueued};
use crate::task::task::{TaskControlBlock, TaskStatus, TaskUserRes, copy_vec, same_but_context, same_task};

verus! {

/// An open file, as far as the process's descriptor table is concerned.
#[derive(Clone, Copy, Debug, PartialEq, Eq, Structural)]
pub enum FileHandle {
    /// Standard input.
    Stdin,
    /// Standard output.
    Stdout,
    /// Any other open file, known by its number.
    Other(usize),
}

/// A mutex of a process: whether waiting threads block or spin, and
/// whether it is held.
#[derive(Clone, Copy, Debug, PartialEq, Eq, Structural)]
pub struct MutexState {
    pub blocking: bool,
    pub locked: bool,
}

/// A semaphore of a process: its count.
#[derive(Clone, Copy, Debug, PartialEq, Eq, Structural)]
pub struct SemaphoreState {
    pub count: isize,
}

/// A condition variable of a process: how many threads wait on it.
#[derive(Clone, Copy, Debug, PartialEq, Eq, Structural)]
pub struct CondvarState {
    pub waiting: usize,
}

/// Pending signals of a process.
#[derive(Clone, Copy, Debug, PartialEq, Eq, Structural)]
pub struct SignalFlags {
    pub bits: u32,
}

/// Bytes that the first `k` arguments take on a user stack, each followed
/// by a zero byte.
pub open spec fn args_bytes(args: Seq<String>, k: int) -> int
    decreases k,
{
    if k <= 0 {
        0
    } else {
        args_bytes(args, k - 1) + vstd::utf8::encode_utf8(args[k - 1]@).len() + 1
    }
}

/// The bytes of a prefix of the arguments grow with the prefix.
proof fn lemma_args_bytes_mono(args: Seq<String>, i: int, k: int)
    requires
        0 <= i <= k,
    ensures
        args_bytes(args, i) <= args_bytes(args, k),
    decreases k - i,
{
    if i < k {
        lemma_args_bytes_mono(args, i, k - 1);
    }
}

/// Where `exec` places the program arguments on a new user stack: the
/// argument-pointer array, the pointers in it, and the final stack pointer.
pub struct ArgStack {
    /// The stack pointer the program starts with, a multiple of the word size.
    pub user_sp: usize,
    /// Address of the argument-pointer array.
    pub argv_base: usize,
    /// The entries of the argument-pointer array: the address of each
    /// argument string, then 0.
    pub argv: Vec<usize>,
}

/// The arguments `args`, pushed on a user stack whose top is `top`, need
/// this many bytes below it.
pub open spec fn arg_stack_size(args: Seq<String>) -> int {
    (args.len() + 1) * WORD_BYTES + args_bytes(args, args.len() as int)
}

/// `st` places `args` on the user stack whose top is `top`: below the top
/// the pointer array with one word per argument and a final 0, below that
/// each argument's bytes and a zero byte, the first argument highest; the
/// stack pointer is then rounded down to a word boundary.
pub open spec fn arg_stack_layout(top: usize, args: Seq<String>, st: ArgStack) -> bool {
    let n = args.len() as int;
    let argv_base = top - (n + 1) * WORD_BYTES;
    let low = argv_base - args_bytes(args, n);
    &&& st.argv_base == argv_base
    &&& st.argv@.len() == n + 1
    &&& forall|i: int| 0 <= i < n ==> #[trigger] st.argv@[i] == argv_base - args_bytes(args, i + 1)
    &&& st.argv@[n] == 0
    &&& st.user_sp == low - low % WORD_BYTES as int
}

/// Lays out the program arguments `args` on the user stack whose top is
/// `ustack_top` (see `arg_stack_layout`).
pub fn push_args(ustack_top: usize, args: &Vec<String>) -> (st: ArgStack)
    requires
        arg_stack_size(args@) <= ustack_top,
    ensures
        arg_stack_layout(ustack_top, args@, st),
{
    let n = args.len();
    proof {
        lemma_args_bytes_mono(args@, 0, n as int);
    }
    let mut user_sp = ustack_top;
    user_sp = user_sp - (n + 1) * WORD_BYTES;
    let argv_base = user_sp;
    let mut argv: Vec<usize> = Vec::new();
    let mut i: usize = 0;
    while i < n
        invariant
            n == args.len(),
            0 <= i <= n,
            argv_base == ustack_top - (n + 1) * WORD_BYTES,
            arg_stack_size(args@) <= ustack_top,
            user_sp == argv_base - args_bytes(args@, i as int),
            argv@.len() == i,
            forall|k: int| 0 <= k < i ==> #[trigger] argv@[k] == argv_base - args_bytes(args@, k + 1),
        decreases n - i,
    {
        proof {
            lemma_args_bytes_mono(args@, i + 1, n as int);
        }
        let len = args[i].as_str().len();
        user_sp = user_sp - (len + 1);
        argv.push(user_sp);
        i = i + 1;
    }
    argv.push(0);
    user_sp = user_sp - user_sp % WORD_BYTES;
    ArgStack { user_sp, argv_base, argv }
}

/// Process control block.
pub struct ProcessControlBlock {
    /// Process identifier.
    pub pid: PidHandle,
    /// The changing state of the process.
    pub inner: ProcessControlBlockInner,
}

/// The changing state of a process.
pub struct ProcessControlBlockInner {
    /// Whether the process has exited.
    pub is_zombie: bool,
    /// Address space.
    pub memory_set: MemorySet,
    /// Pid of the parent process.
    pub parent: Option<usize>,
    /// Pids of the child processes.
    pub children: Vec<usize>,
    /// Exit code.
    pub exit_code: i32,
    /// File descriptor table.
    pub fd_table: Vec<Option<FileHandle>>,
    /// Pending signals.
    pub signals: SignalFlags,
    /// Threads of the process, indexed by slot.
    pub tasks: Vec<Option<TaskControlBlock>>,
    /// Allocator of thread ids.
    pub task_res_allocator: RecycleAllocator,
    /// Mutexes of the process, indexed by mutex id.
    pub mutex_list: Vec<Option<MutexState>>,
    /// Semaphores of the process, indexed by semaphore id.
    pub semaphore_list: Vec<Option<SemaphoreState>>,
    /// Condition variables of the process, indexed by id.
    pub condvar_list: Vec<Option<CondvarState>>,
    /// Available count of each mutex.
    pub mutex_available: Vec<isize>,
    /// Mutexes held by each thread, one row per thread slot.
    pub mutex_allocation: Vec<Vec<isize>>,
    /// Mutexes wanted by each thread, one row per thread slot.
    pub mutex_need: Vec<Vec<isize>>,
    /// Available count of each semaphore.
    pub sem_available: Vec<isize>,
    /// Semaphore units held by each thread, one row per thread slot.
    pub sem_allocation: Vec<Vec<isize>>,
    /// Semaphore units wanted by each thread, one row per thread slot.
    pub sem_need: Vec<Vec<isize>>,
    /// Whether deadlock detection is enabled.
    pub flag: bool,
}

/// The thread id of the thread in a task slot, if the slot holds a thread
/// with user resources.
pub open spec fn slot_tid(slot: Option<TaskControlBlock>) -> Option<usize> {
    match slot {
        Some(tcb) => match tcb.inner.res {
            Some(res) => Some(res.tid),
            None => None,
        },
        None => None,
    }
}

/// Index of the first slot of `tasks` that holds the thread `tid`.
pub open spec fn first_slot_of_tid(tasks: Seq<Option<TaskControlBlock>>, tid: usize) -> Option<int> {
    if exists|i: int| 0 <= i < tasks.len() && #[trigger] slot_tid(tasks[i]) == Some(tid) {
        Some(
            choose|i: int|
                0 <= i < tasks.len() && #[trigger] slot_tid(tasks[i]) == Some(tid) && forall|k: int|
                    0 <= k < i ==> #[trigger] slot_tid(tasks[k]) != Some(tid),
        )
    } else {
        None
    }
}

/// `x` moved one step: up when `op` is 0, down otherwise.
pub open spec fn stepped(x: isize, op: usize) -> int {
    if op == 0 {
        x + 1
    } else {
        x - 1
    }
}

/// Moving entry `j` of row `i` of `m` one step in the direction `op` stays
/// inside `isize`.
pub open spec fn step_fits(m: Seq<Vec<isize>>, i: int, j: int, op: usize) -> bool {
    0 <= i < m.len() && 0 <= j < m[i].len() && isize::MIN <= stepped(m[i][j], op) <= isize::MAX
}

/// Every field of `a` and `b` agrees but the six resource vectors and matrices.
pub open spec fn same_but_resources(a: &ProcessControlBlockInner, b: &ProcessControlBlockInner) -> bool {
    &&& a.is_zombie == b.is_zombie
    &&& a.memory_set@ == b.memory_set@
    &&& a.memory_set.token_spec() == b.memory_set.token_spec()
    &&& a.parent == b.parent
    &&& a.children@ == b.children@
    &&& a.exit_code == b.exit_code
    &&& a.fd_table@ == b.fd_table@
    &&& a.signals == b.signals
    &&& a.tasks@ == b.tasks@
    &&& a.task_res_allocator.current_spec() == b.task_res_allocator.current_spec()
    &&& a.task_res_allocator.recycled_spec() == b.task_res_allocator.recycled_spec()
    &&& a.flag == b.flag
    &&& same_sync_lists(a, b)
}

/// Every field of `a` and `b` agrees but the descriptor table.
pub open spec fn same_but_fd_table(a: &ProcessControlBlockInner, b: &ProcessControlBlockInner) -> bool {
    &&& a.is_zombie == b.is_zombie
    &&& a.memory_set@ == b.memory_set@
    &&& a.memory_set.token_spec() == b.memory_set.token_spec()
    &&& a.parent == b.parent
    &&& a.children@ == b.children@
    &&& a.exit_code == b.exit_code
    &&& a.signals == b.signals
    &&& a.tasks@ == b.tasks@
    &&& a.task_res_allocator.current_spec() == b.task_res_allocator.current_spec()
    &&& a.task_res_allocator.recycled_spec() == b.task_res_allocator.recycled_spec()
    &&& a.flag == b.flag
    &&& same_resources(a, b)
    &&& same_sync_lists(a, b)
}

/// Every field of `a` and `b` agrees but the thread-id allocator.
pub open spec fn same_but_allocator(a: &ProcessControlBlockInner, b: &ProcessControlBlockInner) -> bool {
    &&& a.is_zombie == b.is_zombie
    &&& a.memory_set@ == b.memory_set@
    &&& a.memory_set.token_spec() == b.memory_set.token_spec()
    &&& a.parent == b.parent
    &&& a.children@ == b.children@
    &&& a.exit_code == b.exit_code
    &&& a.fd_table@ == b.fd_table@
    &&& a.signals == b.signals
    &&& a.tasks@ == b.tasks@
    &&& a.flag == b.flag
    &&& same_resources(a, b)
    &&& same_sync_lists(a, b)
}

/// The mutex, semaphore and condition-variable lists of `a` and `b` agree.
pub open spec fn same_sync_lists(a: &ProcessControlBlockInner, b: &ProcessControlBlockInner) -> bool {
    &&& a.mutex_list@ == b.mutex_list@
    &&& a.semaphore_list@ == b.semaphore_list@
    &&& a.condvar_list@ == b.condvar_list@
}

/// Slot by slot, `a` and `b` hold the same threads (see `same_task`).
pub open spec fn same_slots(a: Seq<Option<TaskControlBlock>>, b: Seq<Option<TaskControlBlock>>) -> bool {
    &&& a.len() == b.len()
    &&& forall|i: int| 0 <= i < a.len() ==> (#[trigger] a[i]).is_some() == b[i].is_some()
    &&& forall|i: int| 0 <= i < a.len() && (#[trigger] a[i]).is_some() ==> same_task(a[i].unwrap(), b[i].unwrap())
}

/// `a` and `b` hold the same process: the same pid, and every field of the
/// changing state agrees (the address space by its areas and token, the
/// threads slot by slot).
pub open spec fn same_process(a: &ProcessControlBlock, b: &ProcessControlBlock) -> bool {
    &&& a.pid == b.pid
    &&& a.inner.is_zombie == b.inner.is_zombie
    &&& a.inner.memory_set@ == b.inner.memory_set@
    &&& a.inner.memory_set.token_spec() == b.inner.memory_set.token_spec()
    &&& a.inner.parent == b.inner.parent
    &&& a.inner.children@ == b.inner.children@
    &&& a.inner.exit_code == b.inner.exit_code
    &&& a.inner.fd_table@ == b.inner.fd_table@
    &&& a.inner.signals == b.inner.signals
    &&& same_slots(a.inner.tasks@, b.inner.tasks@)
    &&& a.inner.task_res_allocator.current_spec() == b.inner.task_res_allocator.current_spec()
    &&& a.inner.task_res_allocator.recycled_spec() == b.inner.task_res_allocator.recycled_spec()
    &&& same_sync_lists(&a.inner, &b.inner)
    &&& same_resources(&a.inner, &b.inner)
    &&& a.inner.flag == b.inner.flag
}

/// `b` is the pid map `a` with a copy of `process` (see `same_process`)
/// registered under its pid.
pub open spec fn registered(a: Map<usize, ProcessControlBlock>, b: Map<usize, ProcessControlBlock>, process: &ProcessControlBlock) -> bool {
    &&& b == a.insert(process.pid.0, b[process.pid.0])
    &&& same_process(&b[process.pid.0], process)
}

/// The six resource vectors and matrices of `a` and `b` agree.
pub open spec fn same_resources(a: &ProcessControlBlockInner, b: &ProcessControlBlockInner) -> bool {
    &&& a.mutex_available@ == b.mutex_available@
    &&& a.mutex_allocation.deep_view() == b.mutex_allocation.deep_view()
    &&& a.mutex_need.deep_view() == b.mutex_need.deep_view()
    &&& a.sem_available@ == b.sem_available@
    &&& a.sem_allocation.deep_view() == b.sem_allocation.deep_view()
    &&& a.sem_need.deep_view() == b.sem_need.deep_view()
}

impl ProcessControlBlockInner {
    /// The token of the process's address space.
    pub fn get_user_token(&self) -> (token: usize)
        ensures
            token == self.memory_set.token_spec(),
    {
        self.memory_set.token()
    }

    /// Allocates the lowest free file descriptor, growing the table by one
    /// empty slot when none is free.
    pub fn alloc_fd(&mut self) -> (fd: usize)
        requires
            old(self).fd_table.len() < usize::MAX,
        ensures
            same_but_fd_table(final(self), old(self)),
            fd <= old(self).fd_table.len(),
            forall|k: int| 0 <= k < fd ==> (#[trigger] old(self).fd_table@[k]).is_some(),
            fd < old(self).fd_table.len() ==> old(self).fd_table@[fd as int].is_none() && final(self).fd_table@
                == old(self).fd_table@,
            fd == old(self).fd_table.len() ==> final(self).fd_table@ == old(self).fd_table@.push(None),
    {
        let mut fd: usize = 0;
        while fd < self.fd_table.len()
            invariant
                0 <= fd <= self.fd_table.len(),
                forall|k: int| 0 <= k < fd ==> (#[trigger] self.fd_table@[k]).is_some(),
            decreases self.fd_table.len() - fd,
        {
            if self.fd_table[fd].is_none() {
                return fd;
            }
            fd = fd + 1;
        }
        self.fd_table.push(None);
        self.fd_table.len() - 1
    }

    /// Allocates a thread id.
    pub fn alloc_tid(&mut self) -> (tid: usize)
        requires
            old(self).task_res_allocator.wf(),
            old(self).task_res_allocator.recycled_spec().len() > 0
                || old(self).task_res_allocator.current_spec() < usize::MAX,
        ensures
            final(self).task_res_allocator.wf(),
            !old(self).task_res_allocator.is_allocated(tid as int),
            final(self).task_res_allocator.is_allocated(tid as int),
            forall|k: int|
                k != tid ==> (#[trigger] final(self).task_res_allocator.is_allocated(k)
                    <==> old(self).task_res_allocator.is_allocated(k)),
            old(self).task_res_allocator.recycled_spec().len() > 0 ==> {
                &&& tid == old(self).task_res_allocator.recycled_spec().last()
                &&& final(self).task_res_allocator.recycled_spec() == old(self).task_res_allocator.recycled_spec().drop_last()
                &&& final(self).task_res_allocator.current_spec() == old(self).task_res_allocator.current_spec()
            },
            old(self).task_res_allocator.recycled_spec().len() == 0 ==> {
                &&& tid == old(self).task_res_allocator.current_spec()
                &&& final(self).task_res_allocator.current_spec() == old(self).task_res_allocator.current_spec() + 1
                &&& final(self).task_res_allocator.recycled_spec() == old(self).task_res_allocator.recycled_spec()
            },
            same_but_allocator(final(self), old(self)),
    {
        self.task_res_allocator.allocate()
    }

    /// Gives back a thread id.
    pub fn dealloc_tid(&mut self, tid: usize)
        requires
            old(self).task_res_allocator.wf(),
            old(self).task_res_allocator.is_allocated(tid as int),
        ensures
            final(self).task_res_allocator.wf(),
            final(self).task_res_allocator.current_spec() == old(self).task_res_allocator.current_spec(),
            final(self).task_res_allocator.recycled_spec() == old(
                self,
            ).task_res_allocator.recycled_spec().push(tid),
            !final(self).task_res_allocator.is_allocated(tid as int),
            same_but_allocator(final(self), old(self)),
    {
        self.task_res_allocator.deallocate(tid)
    }

    /// The number of thread slots of the process.
    pub fn thread_count(&self) -> (n: usize)
        ensures
            n == self.tasks.len(),
    {
        self.tasks.len()
    }

    /// The thread in slot `tid`.
    pub fn get_task(&self, tid: usize) -> (task: &TaskControlBlock)
        requires
            tid < self.tasks.len(),
            self.tasks@[tid as int].is_some(),
        ensures
            *task == self.tasks@[tid as int].unwrap(),
    {
        self.tasks[tid].as_ref().unwrap()
    }
}

/// Steps entry `(i, j)` of `m` up when `op` is 0 and down otherwise.
fn step_entry(m: &mut Vec<Vec<isize>>, i: usize, j: usize, op: usize)
    requires
        step_fits(old(m)@, i as int, j as int, op),
    ensures
        final(m)@.len() == old(m)@.len(),
        final(m).deep_view() == old(m).deep_view().update(
            i as int,
            old(m).deep_view()[i as int].update(j as int, stepped(old(m)@[i as int]@[j as int], op) as isize),
        ),
{
    let ghost before = m.deep_view();
    let mut row: Vec<isize> = Vec::new();
    std::mem::swap(&mut row, &mut m[i]);
    let x = row[j];
    if op == 0 {
        row.set(j, x + 1);
    } else {
        row.set(j, x - 1);
    }
    std::mem::swap(&mut row, &mut m[i]);
    proof {
        assert(m.deep_view() =~~= before.update(i as int, before[i as int].update(j as int, stepped(x, op) as isize)));
    }
}

/// A row of `n` zeros.
pub open spec fn zeros(n: nat) -> Seq<isize> {
    Seq::new(n, |j: int| 0isize)
}

/// A row of `n` zeros.
fn zero_row(n: usize) -> (row: Vec<isize>)
    ensures
        row@ == zeros(n as nat),
{
    let mut row: Vec<isize> = Vec::new();
    let mut j: usize = 0;
    while j < n
        invariant
            0 <= j <= n,
            row@ == zeros(j as nat),
        decreases n - j,
    {
        row.push(0);
        j = j + 1;
        proof {
            assert(row@ =~= zeros(j as nat));
        }
    }
    row
}

/// A fresh thread-id allocator, no synchronization objects and empty
/// resource tables.
pub open spec fn fresh_resources(inner: &ProcessControlBlockInner) -> bool {
    &&& inner.task_res_allocator.wf()
    &&& inner.mutex_list@ == Seq::<Option<MutexState>>::empty()
    &&& inner.semaphore_list@ == Seq::<Option<SemaphoreState>>::empty()
    &&& inner.condvar_list@ == Seq::<Option<CondvarState>>::empty()
    &&& inner.mutex_available@ == Seq::<isize>::empty()
    &&& inner.mutex_allocation.deep_view() == Seq::<Seq<isize>>::empty()
    &&& inner.mutex_need.deep_view() == Seq::<Seq<isize>>::empty()
    &&& inner.sem_available@ == Seq::<isize>::empty()
    &&& inner.sem_allocation.deep_view() == Seq::<Seq<isize>>::empty()
    &&& inner.sem_need.deep_view() == Seq::<Seq<isize>>::empty()
    &&& !inner.flag
}

/// The context in which a thread starts at `entry` with stack pointer `sp`.
pub open spec fn start_context(cx: TrapContext, entry: usize, sp: usize, kernel_satp: usize, kernel_sp: usize, trap_handler: usize) -> bool {
    &&& cx.sepc == entry
    &&& cx.kernel_satp == kernel_satp
    &&& cx.kernel_sp == kernel_sp
    &&& cx.trap_handler == trap_handler
    &&& cx.x@[2] == sp
}

/// All registers are zero but the stack pointer x2, which holds `sp`.
pub open spec fn zero_regs_but(regs: Seq<usize>, sp: usize) -> bool {
    regs == Seq::new(32, |i: int| 0usize).update(2, sp)
}

impl ProcessControlBlock {
    /// A new process running the program loaded in `memory_set` from
    /// `entry_point`, with a pid from `pid_allocator`, standard input,
    /// output and error open and one main thread (thread id 0) whose user
    /// stack and trap-context page are mapped above `ustack_base` and below
    /// the trampoline. The process is registered in `pid2process` under its
    /// pid, and its main thread is put on `ready_queue`.
    pub fn new(
        memory_set: MemorySet,
        ustack_base: usize,
        entry_point: usize,
        pid_allocator: &mut RecycleAllocator,
        kernel_stack: KernelStack,
        kernel_satp: usize,
        trap_handler: usize,
        pid2process: &mut BTreeMap<usize, ProcessControlBlock>,
        ready_queue: &mut TaskManager,
    ) -> (process: Self)
        requires
            (TaskUserRes { tid: 0, ustack_base }).fits(),
            old(pid_allocator).wf(),
            old(pid_allocator).can_allocate(),
        ensures
            handed_out(old(pid_allocator), final(pid_allocator), process.pid.0),
            registered(old(pid2process)@, final(pid2process)@, &process),
            enqueued(old(ready_queue), final(ready_queue), process.inner.tasks@[0].unwrap()),
            !process.inner.is_zombie,
            process.inner.memory_set.token_spec() == memory_set.token_spec(),
            (TaskUserRes { tid: 0, ustack_base }).user_res_mapped(memory_set@, process.inner.memory_set@),
            process.inner.parent.is_none(),
            process.inner.children@ == Seq::<usize>::empty(),
            process.inner.exit_code == 0,
            process.inner.fd_table@ == seq![Some(FileHandle::Stdin), Some(FileHandle::Stdout), Some(FileHandle::Stdout)],
            process.inner.signals.bits == 0,
            fresh_resources(&process.inner),
            process.inner.task_res_allocator.current_spec() == 1,
            process.inner.task_res_allocator.recycled_spec() == Seq::<usize>::empty(),
            process.inner.tasks@.len() == 1,
            process.inner.tasks@[0].is_some(),
            ({
                let t = process.inner.tasks@[0].unwrap();
                &&& t.pid == process.pid
                &&& t.kernel_stack == kernel_stack
                &&& t.inner.res == Some(TaskUserRes { tid: 0, ustack_base })
                &&& t.inner.task_status == TaskStatus::Ready
                &&& start_context(t.inner.trap_cx, entry_point, (TaskUserRes { tid: 0, ustack_base }).ustack_top_spec() as usize, kernel_satp, kernel_stack.top, trap_handler)
                &&& zero_regs_but(t.inner.trap_cx.x@, (TaskUserRes { tid: 0, ustack_base }).ustack_top_spec() as usize)
            }),
    {
        let mut fd_table: Vec<Option<FileHandle>> = Vec::new();
        fd_table.push(Some(FileHandle::Stdin));
        fd_table.push(Some(FileHandle::Stdout));
        fd_table.push(Some(FileHandle::Stdout));
        let pid = PidHandle(pid_allocator.allocate());
        let mut process = ProcessControlBlock {
            pid,
            inner: ProcessControlBlockInner {
                is_zombie: false,
                memory_set,
                parent: None,
                children: Vec::new(),
                exit_code: 0,
                fd_table,
                signals: SignalFlags { bits: 0 },
                tasks: Vec::new(),
                task_res_allocator: RecycleAllocator::new(),
                mutex_list: Vec::new(),
                semaphore_list: Vec::new(),
                condvar_list: Vec::new(),
                mutex_available: Vec::new(),
                mutex_allocation: Vec::new(),
                mutex_need: Vec::new(),
                sem_available: Vec::new(),
                sem_allocation: Vec::new(),
                sem_need: Vec::new(),
                flag: false,
            },
        };
        let tid = process.inner.alloc_tid();
        let res = TaskUserRes { tid, ustack_base };
        res.alloc_user_res(&mut process.inner.memory_set);
        let ustack_top = res.ustack_top();
        let trap_cx = TrapContext::app_init_context(
            entry_point,
            ustack_top,
            kernel_satp,
            kernel_stack.get_top(),
            trap_handler,
        );
        let token = process.inner.memory_set.token();
        let task = TaskControlBlock::new_thread(pid, res, kernel_stack, trap_cx, token);
        process.inner.tasks.push(Some(task));
        pid2process.insert(pid.0, process.duplicate());
        ready_queue.add(process.inner.get_task(0).duplicate());
        proof {
            assert(process.inner.fd_table@ =~= seq![Some(FileHandle::Stdin), Some(FileHandle::Stdout), Some(FileHandle::Stdout)]);
            assert(process.inner.mutex_allocation.deep_view() =~= Seq::<Seq<isize>>::empty());
            assert(process.inner.mutex_need.deep_view() =~= Seq::<Seq<isize>>::empty());
            assert(process.inner.sem_allocation.deep_view() =~= Seq::<Seq<isize>>::empty());
            assert(process.inner.sem_need.deep_view() =~= Seq::<Seq<isize>>::empty());
        }
        process
    }

    /// Replaces the program of a single-threaded process: installs
    /// `memory_set`, maps the main thread's user stack (now above
    /// `ustack_base`) and trap-context page in it, lays the arguments out on
    /// the new user stack (see `push_args`), and restarts the main thread at
    /// `entry_point` with the argument count in x10 and the argument-pointer
    /// array in x11. Returns the layout, which the caller writes into the
    /// user stack.
    pub fn exec(
        &mut self,
        memory_set: MemorySet,
        ustack_base: usize,
        entry_point: usize,
        args: &Vec<String>,
        kernel_satp: usize,
        trap_handler: usize,
    ) -> (st: ArgStack)
        requires
            old(self).inner.tasks.len() == 1,
            old(self).inner.tasks@[0].is_some(),
            old(self).inner.tasks@[0].unwrap().inner.res.is_some(),
            (TaskUserRes { ustack_base, ..old(self).inner.tasks@[0].unwrap().inner.res.unwrap() }).fits(),
            arg_stack_size(args@) <= (TaskUserRes {
                ustack_base,
                ..old(self).inner.tasks@[0].unwrap().inner.res.unwrap()
            }).ustack_top_spec(),
        ensures
            ({
                let old_task = old(self).inner.tasks@[0].unwrap();
                let res = TaskUserRes { ustack_base, ..old_task.inner.res.unwrap() };
                let t = final(self).inner.tasks@[0].unwrap();
                &&& final(self).pid == old(self).pid
                &&& final(self).inner.memory_set.token_spec() == memory_set.token_spec()
                &&& res.user_res_mapped(memory_set@, final(self).inner.memory_set@)
                &&& arg_stack_layout(res.ustack_top_spec() as usize, args@, st)
                &&& final(self).inner.tasks@.len() == 1
                &&& final(self).inner.tasks@[0].is_some()
                &&& t.pid == old_task.pid
                &&& t.kernel_stack == old_task.kernel_stack
                &&& t.inner.res == Some(res)
                &&& same_but_context(&t.inner, &old_task.inner)
                &&& start_context(t.inner.trap_cx, entry_point, st.user_sp, kernel_satp, old_task.kernel_stack.top, trap_handler)
                &&& t.inner.trap_cx.x@ == Seq::new(32, |i: int| 0usize).update(2, st.user_sp).update(10, args.len()).update(11, st.argv_base)
                &&& final(self).inner.fd_table@ == old(self).inner.fd_table@
                &&& final(self).inner.children@ == old(self).inner.children@
                &&& final(self).inner.parent == old(self).inner.parent
                &&& final(self).inner.is_zombie == old(self).inner.is_zombie
                &&& final(self).inner.exit_code == old(self).inner.exit_code
                &&& final(self).inner.signals == old(self).inner.signals
                &&& final(self).inner.flag == old(self).inner.flag
                &&& final(self).inner.task_res_allocator.current_spec() == old(self).inner.task_res_allocator.current_spec()
                &&& final(self).inner.task_res_allocator.recycled_spec() == old(self).inner.task_res_allocator.recycled_spec()
                &&& same_resources(&final(self).inner, &old(self).inner)
                &&& same_sync_lists(&final(self).inner, &old(self).inner)
            }),
    {
        self.inner.memory_set = memory_set;
        let slot = self.inner.tasks.pop();
        let mut task = slot.unwrap().unwrap();
        let mut res = task.inner.res.unwrap();
        res.ustack_base = ustack_base;
        res.alloc_user_res(&mut self.inner.memory_set);
        task.inner.res = Some(res);
        let ustack_top = res.ustack_top();
        let st = push_args(ustack_top, args);
        let mut trap_cx = TrapContext::app_init_context(
            entry_point,
            st.user_sp,
            kernel_satp,
            task.kernel_stack.get_top(),
            trap_handler,
        );
        trap_cx.x[10] = args.len();
        trap_cx.x[11] = st.argv_base;
        task.inner.trap_cx = trap_cx;
        self.inner.tasks.push(Some(task));
        st
    }

    /// Creates a child of a single-threaded process: a pid from
    /// `pid_allocator`, a copy of the address space under the token `token`,
    /// a copy of the descriptor table, and a main thread (thread id 0) that
    /// resumes from the parent's trap context on the kernel stack
    /// `kernel_stack`. The child is recorded among this process's children,
    /// registered in `pid2process` under its pid, and its main thread is put
    /// on `ready_queue`.
    pub fn fork(
        &mut self,
        pid_allocator: &mut RecycleAllocator,
        token: usize,
        kernel_stack: KernelStack,
        pid2process: &mut BTreeMap<usize, ProcessControlBlock>,
        ready_queue: &mut TaskManager,
    ) -> (child: Self)
        requires
            old(self).inner.tasks.len() == 1,
            old(self).inner.tasks@[0].is_some(),
            old(self).inner.tasks@[0].unwrap().inner.res.is_some(),
            old(pid_allocator).wf(),
            old(pid_allocator).can_allocate(),
        ensures
            handed_out(old(pid_allocator), final(pid_allocator), child.pid.0),
            registered(old(pid2process)@, final(pid2process)@, &child),
            enqueued(old(ready_queue), final(ready_queue), child.inner.tasks@[0].unwrap()),
            final(self).pid == old(self).pid,
            final(self).inner.children@ == old(self).inner.children@.push(child.pid.0),
            final(self).inner.tasks@ == old(self).inner.tasks@,
            final(self).inner.memory_set@ == old(self).inner.memory_set@,
            final(self).inner.fd_table@ == old(self).inner.fd_table@,
            final(self).inner.memory_set.token_spec() == old(self).inner.memory_set.token_spec(),
            final(self).inner.parent == old(self).inner.parent,
            final(self).inner.is_zombie == old(self).inner.is_zombie,
            final(self).inner.exit_code == old(self).inner.exit_code,
            final(self).inner.signals == old(self).inner.signals,
            final(self).inner.flag == old(self).inner.flag,
            final(self).inner.task_res_allocator.current_spec() == old(self).inner.task_res_allocator.current_spec(),
            final(self).inner.task_res_allocator.recycled_spec() == old(self).inner.task_res_allocator.recycled_spec(),
            same_resources(&final(self).inner, &old(self).inner),
            same_sync_lists(&final(self).inner, &old(self).inner),
            !child.inner.is_zombie,
            child.inner.memory_set@ == old(self).inner.memory_set@,
            child.inner.memory_set.token_spec() == token,
            child.inner.parent == Some(old(self).pid.0),
            child.inner.children@ == Seq::<usize>::empty(),
            child.inner.exit_code == 0,
            child.inner.fd_table@ == old(self).inner.fd_table@,
            child.inner.signals.bits == 0,
            fresh_resources(&child.inner),
            child.inner.task_res_allocator.current_spec() == 1,
            child.inner.task_res_allocator.recycled_spec() == Seq::<usize>::empty(),
            child.inner.tasks@.len() == 1,
            child.inner.tasks@[0].is_some(),
            ({
                let parent_task = old(self).inner.tasks@[0].unwrap();
                let t = child.inner.tasks@[0].unwrap();
                &&& t.pid == child.pid
                &&& t.kernel_stack == kernel_stack
                &&& t.inner.res == Some(TaskUserRes { tid: 0, ustack_base: parent_task.inner.res.unwrap().ustack_base })
                &&& t.inner.task_status == TaskStatus::Ready
                &&& t.inner.trap_cx == (TrapContext { kernel_sp: kernel_stack.top, ..parent_task.inner.trap_cx })
            }),
    {
        let memory_set = MemorySet::from_existed_user(&self.inner.memory_set, token);
        let pid = PidHandle(pid_allocator.allocate());
        let mut new_fd_table: Vec<Option<FileHandle>> = Vec::new();
        let mut i: usize = 0;
        while i < self.inner.fd_table.len()
            invariant
                0 <= i <= self.inner.fd_table.len(),
                new_fd_table@ == self.inner.fd_table@.subrange(0, i as int),
            decreases self.inner.fd_table.len() - i,
        {
            match self.inner.fd_table[i] {
                Some(file) => new_fd_table.push(Some(file)),
                None => new_fd_table.push(None),
            }
            i = i + 1;
        }
        let mut child = ProcessControlBlock {
            pid,
            inner: ProcessControlBlockInner {
                is_zombie: false,
                memory_set,
                parent: Some(self.pid.0),
                children: Vec::new(),
                exit_code: 0,
                fd_table: new_fd_table,
                signals: SignalFlags { bits: 0 },
                tasks: Vec::new(),
                task_res_allocator: RecycleAllocator::new(),
                mutex_list: Vec::new(),
                semaphore_list: Vec::new(),
                condvar_list: Vec::new(),
                mutex_available: Vec::new(),
                mutex_allocation: Vec::new(),
                mutex_need: Vec::new(),
                sem_available: Vec::new(),
                sem_allocation: Vec::new(),
                sem_need: Vec::new(),
                flag: false,
            },
        };
        self.inner.children.push(pid.0);
        let parent_task = self.inner.get_task(0);
        let ustack_base = parent_task.inner.res.unwrap().ustack_base();
        let tid = child.inner.alloc_tid();
        let res = TaskUserRes { tid, ustack_base };
        let mut trap_cx = parent_task.inner.trap_cx;
        trap_cx.kernel_sp = kernel_stack.get_top();
        let task = TaskControlBlock::new_thread(pid, res, kernel_stack, trap_cx, token);
        child.inner.tasks.push(Some(task));
        pid2process.insert(pid.0, child.duplicate());
        ready_queue.add(child.inner.get_task(0).duplicate());
        proof {
            assert(child.inner.mutex_allocation.deep_view() =~= Seq::<Seq<isize>>::empty());
            assert(child.inner.mutex_need.deep_view() =~= Seq::<Seq<isize>>::empty());
            assert(child.inner.sem_allocation.deep_view() =~= Seq::<Seq<isize>>::empty());
            assert(child.inner.sem_need.deep_view() =~= Seq::<Seq<isize>>::empty());
        }
        child
    }

    /// A second process control block holding the same process (see
    /// `same_process`).
    pub fn duplicate(&self) -> (p: Self)
        ensures
            same_process(&p, self),
    {
        let mut tasks: Vec<Option<TaskControlBlock>> = Vec::new();
        let mut i: usize = 0;
        while i < self.inner.tasks.len()
            invariant
                0 <= i <= self.inner.tasks.len(),
                tasks.len() == i,
                forall|k: int| 0 <= k < i ==> (#[trigger] tasks@[k]).is_some() == self.inner.tasks@[k].is_some(),
                forall|k: int|
                    0 <= k < i && (#[trigger] tasks@[k]).is_some() ==> same_task(tasks@[k].unwrap(), self.inner.tasks@[k].unwrap()),
            decreases self.inner.tasks.len() - i,
        {
            let slot = match &self.inner.tasks[i] {
                Some(t) => Some(t.duplicate()),
                None => None,
            };
            tasks.push(slot);
            i = i + 1;
        }
        let token = self.inner.memory_set.token();
        ProcessControlBlock {
            pid: self.pid,
            inner: ProcessControlBlockInner {
                is_zombie: self.inner.is_zombie,
                memory_set: MemorySet::from_existed_user(&self.inner.memory_set, token),
                parent: self.inner.parent,
                children: copy_vec(&self.inner.children),
                exit_code: self.inner.exit_code,
                fd_table: copy_vec(&self.inner.fd_table),
                signals: self.inner.signals,
                tasks,
                task_res_allocator: self.inner.task_res_allocator.duplicate(),
                mutex_list: copy_vec(&self.inner.mutex_list),
                semaphore_list: copy_vec(&self.inner.semaphore_list),
                condvar_list: copy_vec(&self.inner.condvar_list),
                mutex_available: copy_vec(&self.inner.mutex_available),
                mutex_allocation: copy_matrix(&self.inner.mutex_allocation),
                mutex_need: copy_matrix(&self.inner.mutex_need),
                sem_available: copy_vec(&self.inner.sem_available),
                sem_allocation: copy_matrix(&self.inner.sem_allocation),
                sem_need: copy_matrix(&self.inner.sem_need),
                flag: self.inner.flag,
            },
        }
    }

    /// Exclusive access to the changing state of the process.
    pub fn inner_exclusive_access(&mut self) -> (inner: &mut ProcessControlBlockInner)
        ensures
            *inner == old(self).inner,
            final(self).inner == *final(inner),
            final(self).pid == old(self).pid,
    {
        &mut self.inner
    }

    /// The process id.
    pub fn getpid(&self) -> (pid: usize)
        ensures
            pid == self.pid.0,
    {
        self.pid.0
    }

    /// Index of the first thread slot that holds the thread `tid`.
    pub fn find_task_idx_by_tid(&self, tid: usize) -> (idx: Option<usize>)
        ensures
            match idx {
                Some(i) => first_slot_of_tid(self.inner.tasks@, tid) == Some(i as int),
                None => first_slot_of_tid(self.inner.tasks@, tid).is_none(),
            },
    {
        let mut idx: usize = 0;
        while idx < self.inner.tasks.len()
            invariant
                0 <= idx <= self.inner.tasks.len(),
                forall|k: int| 0 <= k < idx ==> #[trigger] slot_tid(self.inner.tasks@[k]) != Some(tid),
            decreases self.inner.tasks.len() - idx,
        {
            let opt = &self.inner.tasks[idx];
            let found = match opt {
                Some(tcb) => match &tcb.inner.res {
                    Some(res) => res.tid == tid,
                    None => false,
                },
                None => false,
            };
            if found {
                proof {
                    lemma_first_slot(self.inner.tasks@, tid, idx as int);
                }
                return Some(idx);
            }
            idx = idx + 1;
        }
        None
    }

    /// Steps the available count of mutex `mutex_id`: up when `op` is 0, down otherwise.
    pub fn update_mutex_available(&mut self, mutex_id: usize, op: usize)
        requires
            mutex_id < old(self).inner.mutex_available.len(),
            isize::MIN <= stepped(old(self).inner.mutex_available@[mutex_id as int], op) <= isize::MAX,
        ensures
            final(self).pid == old(self).pid,
            same_but_resources(&final(self).inner, &old(self).inner),
            final(self).inner.mutex_available@ == old(self).inner.mutex_available@.update(
                mutex_id as int,
                stepped(old(self).inner.mutex_available@[mutex_id as int], op) as isize,
            ),
            final(self).inner.mutex_allocation.deep_view() == old(self).inner.mutex_allocation.deep_view(),
            final(self).inner.mutex_need.deep_view() == old(self).inner.mutex_need.deep_view(),
            final(self).inner.sem_available@ == old(self).inner.sem_available@,
            final(self).inner.sem_allocation.deep_view() == old(self).inner.sem_allocation.deep_view(),
            final(self).inner.sem_need.deep_view() == old(self).inner.sem_need.deep_view(),
    {
        let x = self.inner.mutex_available[mutex_id];
        if op == 0 {
            self.inner.mutex_available.set(mutex_id, x + 1);
        } else {
            self.inner.mutex_available.set(mutex_id, x - 1);
        }
    }

    /// Steps the available count of semaphore `sem_id`: up when `op` is 0, down otherwise.
    pub fn update_sem_available(&mut self, sem_id: usize, op: usize)
        requires
            sem_id < old(self).inner.sem_available.len(),
            isize::MIN <= stepped(old(self).inner.sem_available@[sem_id as int], op) <= isize::MAX,
        ensures
            final(self).pid == old(self).pid,
            same_but_resources(&final(self).inner, &old(self).inner),
            final(self).inner.sem_available@ == old(self).inner.sem_available@.update(
                sem_id as int,
                stepped(old(self).inner.sem_available@[sem_id as int], op) as isize,
            ),
            final(self).inner.mutex_available@ == old(self).inner.mutex_available@,
            final(self).inner.mutex_allocation.deep_view() == old(self).inner.mutex_allocation.deep_view(),
            final(self).inner.mutex_need.deep_view() == old(self).inner.mutex_need.deep_view(),
            final(self).inner.sem_allocation.deep_view() == old(self).inner.sem_allocation.deep_view(),
            final(self).inner.sem_need.deep_view() == old(self).inner.sem_need.deep_view(),
    {
        let x = self.inner.sem_available[sem_id];
        if op == 0 {
            self.inner.sem_available.set(sem_id, x + 1);
        } else {
            self.inner.sem_available.set(sem_id, x - 1);
        }
    }

    /// Steps the need of thread `tid` for mutex `mutex_id`: up when `op` is 0, down otherwise.
    pub fn update_mutex_need(&mut self, tid: usize, mutex_id: usize, op: usize)
        requires
            first_slot_of_tid(old(self).inner.tasks@, tid).is_some(),
            step_fits(old(self).inner.mutex_need@, first_slot_of_tid(old(self).inner.tasks@, tid).unwrap(), mutex_id as int, op),
        ensures
            final(self).pid == old(self).pid,
            same_but_resources(&final(self).inner, &old(self).inner),
            ({
                let i = first_slot_of_tid(old(self).inner.tasks@, tid).unwrap();
                let m = old(self).inner.mutex_need.deep_view();
                final(self).inner.mutex_need.deep_view() == m.update(
                    i,
                    m[i].update(mutex_id as int, stepped(m[i][mutex_id as int], op) as isize),
                )
            }),
            final(self).inner.mutex_available@ == old(self).inner.mutex_available@,
            final(self).inner.mutex_allocation.deep_view() == old(self).inner.mutex_allocation.deep_view(),
            final(self).inner.sem_available@ == old(self).inner.sem_available@,
            final(self).inner.sem_allocation.deep_view() == old(self).inner.sem_allocation.deep_view(),
            final(self).inner.sem_need.deep_view() == old(self).inner.sem_need.deep_view(),
    {
        let idx = self.find_task_idx_by_tid(tid).unwrap();
        step_entry(&mut self.inner.mutex_need, idx, mutex_id, op);
    }

    /// Steps the need of thread `tid` for semaphore `sem_id`: up when `op` is 0, down otherwise.
    pub fn update_sem_need(&mut self, tid: usize, sem_id: usize, op: usize)
        requires
            first_slot_of_tid(old(self).inner.tasks@, tid).is_some(),
            step_fits(old(self).inner.sem_need@, first_slot_of_tid(old(self).inner.tasks@, tid).unwrap(), sem_id as int, op),
        ensures
            final(self).pid == old(self).pid,
            same_but_resources(&final(self).inner, &old(self).inner),
            ({
                let i = first_slot_of_tid(old(self).inner.tasks@, tid).unwrap();
                let m = old(self).inner.sem_need.deep_view();
                final(self).inner.sem_need.deep_view() == m.update(
                    i,
                    m[i].update(sem_id as int, stepped(m[i][sem_id as int], op) as isize),
                )
            }),
            final(self).inner.mutex_available@ == old(self).inner.mutex_available@,
            final(self).inner.mutex_allocation.deep_view() == old(self).inner.mutex_allocation.deep_view(),
            final(self).inner.mutex_need.deep_view() == old(self).inner.mutex_need.deep_view(),
            final(self).inner.sem_available@ == old(self).inner.sem_available@,
            final(self).inner.sem_allocation.deep_view() == old(self).inner.sem_allocation.deep_view(),
    {
        let idx = self.find_task_idx_by_tid(tid).unwrap();
        step_entry(&mut self.inner.sem_need, idx, sem_id, op);
    }

    /// Steps how many units of mutex `mutex_id` thread `tid` holds: up when `op` is 0, down otherwise.
    pub fn update_mutex_allocation(&mut self, tid: usize, mutex_id: usize, op: usize)
        requires
            first_slot_of_tid(old(self).inner.tasks@, tid).is_some(),
            step_fits(old(self).inner.mutex_allocation@, first_slot_of_tid(old(self).inner.tasks@, tid).unwrap(), mutex_id as int, op),
        ensures
            final(self).pid == old(self).pid,
            same_but_resources(&final(self).inner, &old(self).inner),
            ({
                let i = first_slot_of_tid(old(self).inner.tasks@, tid).unwrap();
                let m = old(self).inner.mutex_allocation.deep_view();
                final(self).inner.mutex_allocation.deep_view() == m.update(
                    i,
                    m[i].update(mutex_id as int, stepped(m[i][mutex_id as int], op) as isize),
                )
            }),
            final(self).inner.mutex_available@ == old(self).inner.mutex_available@,
            final(self).inner.mutex_need.deep_view() == old(self).inner.mutex_need.deep_view(),
            final(self).inner.sem_available@ == old(self).inner.sem_available@,
            final(self).inner.sem_allocation.deep_view() == old(self).inner.sem_allocation.deep_view(),
            final(self).inner.sem_need.deep_view() == old(self).inner.sem_need.deep_view(),
    {
        let idx = self.find_task_idx_by_tid(tid).unwrap();
        step_entry(&mut self.inner.mutex_allocation, idx, mutex_id, op);
    }

    /// Steps how many units of semaphore `sem_id` thread `tid` holds: up when `op` is 0, down otherwise.
    pub fn update_sem_allocation(&mut self, tid: usize, sem_id: usize, op: usize)
        requires
            first_slot_of_tid(old(self).inner.tasks@, tid).is_some(),
            step_fits(old(self).inner.sem_allocation@, first_slot_of_tid(old(self).inner.tasks@, tid).unwrap(), sem_id as int, op),
        ensures
            final(self).pid == old(self).pid,
            same_but_resources(&final(self).inner, &old(self).inner),
            ({
                let i = first_slot_of_tid(old(self).inner.tasks@, tid).unwrap();
                let m = old(self).inner.sem_allocation.deep_view();
                final(self).inner.sem_allocation.deep_view() == m.update(
                    i,
                    m[i].update(sem_id as int, stepped(m[i][sem_id as int], op) as isize),
                )
            }),
            final(self).inner.mutex_available@ == old(self).inner.mutex_available@,
            final(self).inner.mutex_allocation.deep_view() == old(self).inner.mutex_allocation.deep_view(),
            final(self).inner.mutex_need.deep_view() == old(self).inner.mutex_need.deep_view(),
            final(self).inner.sem_available@ == old(self).inner.sem_available@,
            final(self).inner.sem_need.deep_view() == old(self).inner.sem_need.deep_view(),
    {
        let idx = self.find_task_idx_by_tid(tid).unwrap();
        step_entry(&mut self.inner.sem_allocation, idx, sem_id, op);
    }

    /// Turns deadlock detection on or off.
    pub fn update_flag(&mut self, is_enable: bool)
        ensures
            final(self).pid == old(self).pid,
            final(self).inner.flag == is_enable,
            same_resources(&final(self).inner, &old(self).inner),
            same_but_resources(&final(self).inner, &(ProcessControlBlockInner { flag: is_enable, ..old(self).inner })),
    {
        self.inner.flag = is_enable;
    }

    /// Adds a row for a new thread to each allocation and need matrix: one
    /// zero per mutex in the mutex matrices, one zero per semaphore in the
    /// semaphore matrices.
    pub fn update_matrix(&mut self)
        ensures
            final(self).pid == old(self).pid,
            same_but_resources(&final(self).inner, &old(self).inner),
            final(self).inner.mutex_available@ == old(self).inner.mutex_available@,
            final(self).inner.sem_available@ == old(self).inner.sem_available@,
            final(self).inner.mutex_allocation.deep_view() == old(self).inner.mutex_allocation.deep_view().push(
                zeros(old(self).inner.mutex_available@.len()),
            ),
            final(self).inner.mutex_need.deep_view() == old(self).inner.mutex_need.deep_view().push(
                zeros(old(self).inner.mutex_available@.len()),
            ),
            final(self).inner.sem_allocation.deep_view() == old(self).inner.sem_allocation.deep_view().push(
                zeros(old(self).inner.sem_available@.len()),
            ),
            final(self).inner.sem_need.deep_view() == old(self).inner.sem_need.deep_view().push(
                zeros(old(self).inner.sem_available@.len()),
            ),
    {
        let ghost a = self.inner.mutex_allocation.deep_view();
        let ghost b = self.inner.mutex_need.deep_view();
        let ghost c = self.inner.sem_allocation.deep_view();
        let ghost d = self.inner.sem_need.deep_view();
        let m = self.inner.mutex_available.len();
        let k = self.inner.sem_available.len();
        self.inner.mutex_allocation.push(zero_row(m));
        self.inner.mutex_need.push(zero_row(m));
        self.inner.sem_allocation.push(zero_row(k));
        self.inner.sem_need.push(zero_row(k));
        proof {
            assert(self.inner.mutex_allocation.deep_view() =~~= a.push(zeros(m as nat)));
            assert(self.inner.mutex_need.deep_view() =~~= b.push(zeros(m as nat)));
            assert(self.inner.sem_allocation.deep_view() =~~= c.push(zeros(k as nat)));
            assert(self.inner.sem_need.deep_view() =~~= d.push(zeros(k as nat)));
        }
    }

    /// Whether the mutex state of the process is safe (see `is_safe`).
    pub fn mutex_is_safe(&self) -> (safe: bool)
        requires
            matrices_wf(self.inner.mutex_available@, self.inner.mutex_allocation.deep_view(), self.inner.mutex_need.deep_view()),
            greedy_work_fits(self.inner.mutex_available@, self.inner.mutex_allocation.deep_view(), self.inner.mutex_need.deep_view()),
        ensures
            safe == greedy_finishes_all(self.inner.mutex_available@, self.inner.mutex_allocation.deep_view(), self.inner.mutex_need.deep_view()),
            safe ==> has_safe_order(self.inner.mutex_available@, self.inner.mutex_allocation.deep_view(), self.inner.mutex_need.deep_view()),
            allocation_nonneg(self.inner.mutex_allocation.deep_view()) && has_safe_order(
                self.inner.mutex_available@,
                self.inner.mutex_allocation.deep_view(),
                self.inner.mutex_need.deep_view(),
            ) ==> safe,
    {
        let available = copy_vec(&self.inner.mutex_available);
        let allocation = copy_matrix(&self.inner.mutex_allocation);
        let need = copy_matrix(&self.inner.mutex_need);
        self.is_safe(available, allocation, need)
    }

    /// Whether the semaphore state of the process is safe (see `is_safe`).
    pub fn sem_is_safe(&self) -> (safe: bool)
        requires
            matrices_wf(self.inner.sem_available@, self.inner.sem_allocation.deep_view(), self.inner.sem_need.deep_view()),
            greedy_work_fits(self.inner.sem_available@, self.inner.sem_allocation.deep_view(), self.inner.sem_need.deep_view()),
        ensures
            safe == greedy_finishes_all(self.inner.sem_available@, self.inner.sem_allocation.deep_view(), self.inner.sem_need.deep_view()),
            safe ==> has_safe_order(self.inner.sem_available@, self.inner.sem_allocation.deep_view(), self.inner.sem_need.deep_view()),
            allocation_nonneg(self.inner.sem_allocation.deep_view()) && has_safe_order(
                self.inner.sem_available@,
                self.inner.sem_allocation.deep_view(),
                self.inner.sem_need.deep_view(),
            ) ==> safe,
    {
        let available = copy_vec(&self.inner.sem_available);
        let allocation = copy_matrix(&self.inner.sem_allocation);
        let need = copy_matrix(&self.inner.sem_need);
        self.is_safe(available, allocation, need)
    }

    /// Checks whether every row of `need_row` fits under `work`, entry by entry.
    fn row_fits(need_row: &Vec<isize>, work: &Vec<isize>) -> (fits: bool)
        requires
            need_row.len() == work.len(),
        ensures
            fits == forall|j: int| 0 <= j < work.len() ==> need_row[j] <= work[j],
    {
        let mut j: usize = 0;
        while j < work.len()
            invariant
                need_row.len() == work.len(),
                0 <= j <= work.len(),
                forall|k: int| 0 <= k < j ==> need_row[k] <= work[k],
            decreases work.len() - j,
        {
            if need_row[j] > work[j] {
                return false;
            }
            j = j + 1;
        }
        true
    }

    /// Banker's algorithm: decides whether the state given by `available`,
    /// `allocation` and `need` lets every thread finish.
    ///
    /// Threads are taken greedily: each round runs the first unfinished thread
    /// whose need fits in the work vector, then adds its allocation back.
    #[verifier::rlimit(60)]
    pub fn is_safe(&self, available: Vec<isize>, allocation: Vec<Vec<isize>>, need: Vec<Vec<isize>>) -> (safe: bool)
        requires
            matrices_wf(available@, allocation.deep_view(), need.deep_view()),
            greedy_work_fits(available@, allocation.deep_view(), need.deep_view()),
        ensures
            safe == greedy_finishes_all(available@, allocation.deep_view(), need.deep_view()),
            safe ==> has_safe_order(available@, allocation.deep_view(), need.deep_view()),
            allocation_nonneg(allocation.deep_view()) && has_safe_order(
                available@,
                allocation.deep_view(),
                need.deep_view(),
            ) ==> safe,
    {
        let ghost av = available@;
        let ghost al = allocation.deep_view();
        let ghost nd = need.deep_view();
        let n_threads = allocation.len();
        let n_resources = available.len();
        assert forall|i: int, j: int| 0 <= i < n_threads && 0 <= j < n_resources implies #[trigger] al[i][j] == allocation[i]@[j] by {
            assert(al[i] == allocation[i].deep_view());
        }
        assert forall|i: int, j: int| 0 <= i < n_threads && 0 <= j < n_resources implies #[trigger] nd[i][j] == need[i]@[j] by {
            assert(nd[i] == need[i].deep_view());
        }
        assert forall|i: int| 0 <= i < n_threads implies #[trigger] allocation[i].len() == n_resources by {
            assert(al[i] == allocation[i].deep_view());
        }
        assert forall|i: int| 0 <= i < n_threads implies #[trigger] need[i].len() == n_resources by {
            assert(nd[i] == need[i].deep_view());
        }
        let mut work: Vec<isize> = Vec::new();
        let mut r: usize = 0;
        while r < n_resources
            invariant
                n_resources == available.len(),
                0 <= r <= n_resources,
                work@ == available@.subrange(0, r as int),
            decreases n_resources - r,
        {
            work.push(available[r]);
            r = r + 1;
        }
        let mut finish: Vec<bool> = Vec::new();
        let mut t: usize = 0;
        while t < n_threads
            invariant
                0 <= t <= n_threads,
                finish.len() == t,
                forall|i: int| 0 <= i < t ==> !#[trigger] finish[i],
            decreases n_threads - t,
        {
            finish.push(false);
            t = t + 1;
        }
        proof {
            assert forall|j: int| 0 <= j < n_resources implies #[trigger] work[j] == av[j] + masked_sum(al, finish@, j, n_threads as int) by {
                lemma_masked_sum_zero(al, finish@, j, n_threads as int);
            }
            assert forall|j: int| 0 <= j < n_resources implies #[trigger] masked_sum(al, finish@, j, n_threads as int) == order_sum(al, Seq::<int>::empty(), j, 0) by {
                lemma_masked_sum_zero(al, finish@, j, n_threads as int);
            }
        }
        let ghost mut order: Seq<int> = Seq::empty();
        let ghost init: Seq<bool> = no_finished(n_threads as nat);
        proof {
            assert(finish@ =~= init);
        }
        loop
            invariant
                greedy_finish(av, al, nd, init, n_threads as nat) == greedy_finish(av, al, nd, finish@, (n_threads - order.len()) as nat),
                order.len() <= n_threads,
                matrices_wf(av, al, nd),
                greedy_work_fits(av, al, nd),
                init == no_finished(n_threads as nat),
                finish@ == greedy_finish(av, al, nd, init, order.len() as nat),
                av == available@,
                al == allocation.deep_view(),
                nd == need.deep_view(),
                n_threads == allocation.len(),
                n_threads == need.len(),
                n_resources == available.len(),
                forall|i: int| 0 <= i < n_threads ==> #[trigger] allocation[i].len() == n_resources,
                forall|i: int| 0 <= i < n_threads ==> #[trigger] need[i].len() == n_resources,
                forall|i: int, j: int| 0 <= i < n_threads && 0 <= j < n_resources ==> #[trigger] al[i][j] == allocation[i]@[j],
                forall|i: int, j: int| 0 <= i < n_threads && 0 <= j < n_resources ==> #[trigger] nd[i][j] == need[i]@[j],
                finish.len() == n_threads,
                work.len() == n_resources,
                forall|j: int| 0 <= j < n_resources ==> #[trigger] work[j] == av[j] + masked_sum(al, finish@, j, n_threads as int),
                forall|j: int| 0 <= j < n_resources ==> #[trigger] masked_sum(al, finish@, j, n_threads as int) == order_sum(al, order, j, order.len() as int),
                order.no_duplicates(),
                forall|k: int| 0 <= k < order.len() ==> 0 <= #[trigger] order[k] < n_threads,
                forall|i: int| 0 <= i < n_threads ==> (#[trigger] finish[i] <==> order.contains(i)),
                forall|k: int, j: int| 0 <= k < order.len() && 0 <= j < n_resources ==> #[trigger] nd[order[k]][j]
                    <= av[j] + order_sum(al, order, j, k),
            ensures
                greedy_finish(av, al, nd, init, n_threads as nat) == finish@,
                finish.len() == n_threads,
                forall|j: int| 0 <= j < n_resources ==> #[trigger] work[j] == av[j] + masked_sum(al, finish@, j, n_threads as int),
                order.no_duplicates(),
                forall|k: int| 0 <= k < order.len() ==> 0 <= #[trigger] order[k] < n_threads,
                forall|i: int| 0 <= i < n_threads ==> (#[trigger] finish[i] <==> order.contains(i)),
                forall|k: int, j: int| 0 <= k < order.len() && 0 <= j < n_resources ==> #[trigger] nd[order[k]][j]
                    <= av[j] + order_sum(al, order, j, k),
                forall|i: int| 0 <= i < n_threads && !#[trigger] finish[i] ==> exists|j: int|
                    0 <= j < n_resources && nd[i][j] > av[j] + masked_sum(al, finish@, j, n_threads as int),
            decreases n_threads - order.len(),
        {
            proof {
                lemma_distinct_in_range_len(order, n_threads as int);
            }
            // Find the first unfinished thread whose need fits in `work`.
            let mut found: Option<usize> = None;
            let mut i: usize = 0;
            while i < n_threads
                invariant_except_break
                    found.is_none(),
                invariant
                    0 <= i <= n_threads,
                    n_threads == need.len(),
                    finish.len() == n_threads,
                    work.len() == n_resources,
                    forall|k: int| 0 <= k < n_threads ==> #[trigger] need[k].len() == n_resources,
                    forall|k: int| 0 <= k < i && !#[trigger] finish[k] ==> exists|j: int|
                        0 <= j < n_resources && need[k]@[j] > work[j],
                ensures
                    match found {
                        Some(x) => x < n_threads && !finish[x as int] && (forall|j: int| 0 <= j < n_resources ==> need[x as int]@[j] <= work[j])
                            && forall|k: int| 0 <= k < x && !#[trigger] finish[k] ==> exists|j: int|
                                0 <= j < n_resources && need[k]@[j] > work[j],
                        None => forall|k: int| 0 <= k < n_threads && !#[trigger] finish[k] ==> exists|j: int|
                            0 <= j < n_resources && need[k]@[j] > work[j],
                    },
                decreases n_threads - i,
            {
                if !finish[i] && Self::row_fits(&need[i], &work) {
                    found = Some(i);
                    break;
                }
                i = i + 1;
            }
            match found {
                Some(x) => {
                    let ghost old_finish = finish@;
                    let ghost old_work = work@;
                    let ghost new_finish = finish@.update(x as int, true);
                    proof {
                        assert(!order.contains(x as int));
                        lemma_distinct_in_range_missing_len(order, n_threads as int, x as int);
                        assert(can_finish(av, al, nd, old_finish, x as int)) by {
                            assert forall|j: int| 0 <= j < av.len() implies #[trigger] nd[x as int][j] <= av[j] + masked_sum(al, old_finish, j, nd.len() as int) by {
                                assert(nd[x as int][j] == need[x as int]@[j]);
                                assert(need[x as int]@[j] <= work[j]);
                                assert(work[j] == av[j] + masked_sum(al, finish@, j, n_threads as int));
                            }
                        }
                        assert forall|k: int| 0 <= k < x implies !#[trigger] can_finish(av, al, nd, old_finish, k) by {
                            if !old_finish[k] {
                                let j = choose|j: int| 0 <= j < n_resources && need[k]@[j] > work[j];
                                assert(nd[k][j] == need[k]@[j]);
                            }
                        }
                        lemma_first_runnable(av, al, nd, old_finish, x as int);
                        lemma_greedy_finish_step(av, al, nd, init, order.len() as nat);
                        assert(new_finish == greedy_finish(av, al, nd, init, (order.len() + 1) as nat));
                        assert(init == no_finished(nd.len()));
                        let kk: int = order.len() as int + 1;
                        assert(0 <= kk <= nd.len());
                        assert(work_fits(av, al, greedy_finish(av, al, nd, no_finished(nd.len()), kk as nat)));
                        assert(work_fits(av, al, new_finish));
                        assert(greedy_finish(av, al, nd, old_finish, (n_threads - order.len()) as nat)
                            == greedy_finish(av, al, nd, new_finish, (n_threads - order.len() - 1) as nat));
                        assert forall|j: int| 0 <= j < n_resources implies masked_sum(al, new_finish, j, n_threads as int)
                            == masked_sum(al, old_finish, j, n_threads as int) + al[x as int][j] by {
                            lemma_masked_sum_set(al, old_finish, x as int, j, n_threads as int);
                        }
                    }
                    let mut j: usize = 0;
                    while j < n_resources
                        invariant
                            0 <= j <= n_resources,
                            x < n_threads,
                            n_threads == allocation.len(),
                            work.len() == n_resources,
                            allocation[x as int].len() == n_resources,
                            work_fits(av, al, new_finish),
                            av.len() == n_resources,
                            al.len() == n_threads,
                            new_finish.len() == n_threads,
                            forall|k: int| 0 <= k < n_resources ==> #[trigger] al[x as int][k] == allocation[x as int]@[k],
                            forall|k: int| 0 <= k < n_resources ==> masked_sum(al, new_finish, k, n_threads as int)
                                == masked_sum(al, old_finish, k, n_threads as int) + #[trigger] al[x as int][k],
                            forall|k: int| 0 <= k < n_resources ==> #[trigger] old_work[k] == av[k] + masked_sum(al, old_finish, k, n_threads as int),
                            forall|k: int| 0 <= k < j ==> #[trigger] work[k] == old_work[k] + al[x as int][k],
                            forall|k: int| j <= k < n_resources ==> #[trigger] work[k] == old_work[k],
                        decreases n_resources - j,
                    {
                        proof {
                            assert(isize::MIN <= av[j as int] + masked_sum(al, new_finish, j as int, al.len() as int) <= isize::MAX);
                            assert(work[j as int] == old_work[j as int]);
                            assert(old_work[j as int] == av[j as int] + masked_sum(al, old_finish, j as int, n_threads as int));
                            assert(al[x as int][j as int] == allocation[x as int]@[j as int]);
                            assert(masked_sum(al, new_finish, j as int, n_threads as int)
                                == masked_sum(al, old_finish, j as int, n_threads as int) + al[x as int][j as int]);
                        }
                        let v = work[j] + allocation[x][j];
                        work.set(j, v);
                        j = j + 1;
                    }
                    finish.set(x, true);
                    proof {
                        assert(finish@ == new_finish);
                        let new_order = order.push(x as int);
                        assert forall|j: int| 0 <= j < n_resources implies order_sum(al, new_order, j, order.len() as int)
                            == order_sum(al, order, j, order.len() as int) by {
                            lemma_order_sum_push(al, order, x as int, j, order.len() as int);
                        }
                        assert forall|k: int, j: int| 0 <= k < order.len() && 0 <= j < n_resources implies order_sum(al, new_order, j, k)
                            == order_sum(al, order, j, k) by {
                            lemma_order_sum_push(al, order, x as int, j, k);
                        }
                        assert forall|k: int, j: int| 0 <= k < new_order.len() && 0 <= j < n_resources implies #[trigger] nd[new_order[k]][j]
                            <= av[j] + order_sum(al, new_order, j, k) by {
                            if k < order.len() {
                                assert(new_order[k] == order[k]);
                                assert(nd[order[k]][j] <= av[j] + order_sum(al, order, j, k));
                            } else {
                                assert(new_order[k] == x);
                                assert(nd[x as int][j] == need[x as int]@[j]);
                                assert(need[x as int]@[j] <= old_work[j]);
                                assert(old_work[j] == av[j] + masked_sum(al, old_finish, j, n_threads as int));
                                assert(masked_sum(al, old_finish, j, n_threads as int) == order_sum(al, order, j, order.len() as int));
                            }
                        }
                        assert forall|i: int| 0 <= i < n_threads implies (#[trigger] finish[i] <==> new_order.contains(i)) by {
                            if i == x {
                                assert(new_order[order.len() as int] == i);
                            } else {
                                if new_order.contains(i) {
                                    let k = choose|k: int| 0 <= k < new_order.len() && new_order[k] == i;
                                    assert(order[k] == i);
                                }
                                if order.contains(i) {
                                    let k = choose|k: int| 0 <= k < order.len() && order[k] == i;
                                    assert(new_order[k] == i);
                                }
                            }
                        }
                        assert forall|j: int| 0 <= j < n_resources implies #[trigger] masked_sum(al, finish@, j, n_threads as int)
                            == order_sum(al, new_order, j, new_order.len() as int) by {
                            assert(masked_sum(al, old_finish, j, n_threads as int) == order_sum(al, order, j, order.len() as int));
                        }
                        assert(new_order.no_duplicates()) by {
                            assert forall|a: int, b: int| 0 <= a < new_order.len() && 0 <= b < new_order.len() && a != b implies new_order[a] != new_order[b] by {
                                if a < order.len() && b < order.len() {
                                    assert(order[a] != order[b]);
                                } else if a < order.len() {
                                    assert(order.contains(new_order[a]));
                                } else if b < order.len() {
                                    assert(order.contains(new_order[b]));
                                }
                            }
                        }
                        order = new_order;
                        lemma_distinct_in_range_len(order, n_threads as int);
                    }
                },
                None => {
                    proof {
                        assert forall|i: int| 0 <= i < n_threads && !#[trigger] finish[i] implies exists|j: int|
                            0 <= j < n_resources && nd[i][j] > av[j] + masked_sum(al, finish@, j, n_threads as int) by {
                            let j = choose|j: int| 0 <= j < n_resources && need[i]@[j] > work[j];
                            assert(nd[i][j] == need[i]@[j]);
                        }
                        assert forall|i: int| !#[trigger] can_finish(av, al, nd, finish@, i) by {
                            if 0 <= i < n_threads && !finish[i] {
                                let j = choose|j: int| 0 <= j < n_resources && need[i]@[j] > work[j];
                                assert(nd[i][j] == need[i]@[j]);
                            }
                        }
                        assert(first_runnable(av, al, nd, finish@) is None);
                        assert(greedy_finish(av, al, nd, finish@, (n_threads - order.len()) as nat) == finish@);
                    }
                    break;
                },
            }
        }
        // All threads finished?
        let mut all_finished = true;
        let mut t: usize = 0;
        while t < n_threads
            invariant
                0 <= t <= n_threads,
                finish.len() == n_threads,
                all_finished == forall|i: int| 0 <= i < t ==> #[trigger] finish[i],
            decreases n_threads - t,
        {
            if !finish[t] {
                all_finished = false;
            }
            t = t + 1;
        }
        proof {
            assert(all_finished == greedy_finishes_all(av, al, nd));
            if all_finished {
                assert forall|i: int| 0 <= i < nd.len() implies #[trigger] order.contains(i) by {
                    assert(finish[i]);
                }
                assert(is_safe_order(av, al, nd, order));
            }
            if allocation_nonneg(al) && has_safe_order(av, al, nd) {
                let s = choose|s: Seq<int>| is_safe_order(av, al, nd, s);
                lemma_stuck_with_safe_order(av, al, nd, finish@, s);
            }
        }
        all_finished
    }
}

/// A copy of a matrix of counts.
fn copy_matrix(m: &Vec<Vec<isize>>) -> (c: Vec<Vec<isize>>)
    ensures
        c.deep_view() == m.deep_view(),
{
    let mut c: Vec<Vec<isize>> = Vec::new();
    let mut i: usize = 0;
    while i < m.len()
        invariant
            0 <= i <= m.len(),
            c.deep_view() =~~= m.deep_view().subrange(0, i as int),
        decreases m.len() - i,
    {
        let row = copy_vec(&m[i]);
        let ghost before = c.deep_view();
        proof {
            assert(row.deep_view() =~~= m[i as int].deep_view());
            assert(m.deep_view()[i as int] == m[i as int].deep_view());
        }
        c.push(row);
        proof {
            assert(c.deep_view() =~~= before.push(row.deep_view()));
            assert(m.deep_view().subrange(0, i + 1) =~~= m.deep_view().subrange(0, i as int).push(m.deep_view()[i as int]));
        }
        i = i + 1;
    }
    proof {
        assert(c.deep_view() =~~= m.deep_view());
    }
    c
}

/// The slot with no earlier slot holding thread `tid` is the first one.
pub proof fn lemma_first_slot(tasks: Seq<Option<TaskControlBlock>>, tid: usize, i: int)
    requires
        0 <= i < tasks.len(),
        slot_tid(tasks[i]) == Some(tid),
        forall|k: int| 0 <= k < i ==> #[trigger] slot_tid(tasks[k]) != Some(tid),
    ensures
        first_slot_of_tid(tasks, tid) == Some(i),
{
    let j = choose|j: int|
        0 <= j < tasks.len() && #[trigger] slot_tid(tasks[j]) == Some(tid) && forall|k: int|
            0 <= k < j ==> #[trigger] slot_tid(tasks[k]) != Some(tid);
    if j < i {
        assert(slot_tid(tasks[j]) != Some(tid));
    }
    if i < j {
        assert(slot_tid(tasks[i]) != Some(tid));
    }
}

/// When some slot holds thread `tid`, there is a first one, and
/// `first_slot_of_tid` names it: no earlier slot holds `tid`.
pub proof fn lemma_first_slot_exists(tasks: Seq<Option<TaskControlBlock>>, tid: usize, j: int)
    requires
        0 <= j < tasks.len(),
        slot_tid(tasks[j]) == Some(tid),
    ensures
        first_slot_of_tid(tasks, tid).is_some(),
        ({
            let i = first_slot_of_tid(tasks, tid).unwrap();
            &&& 0 <= i <= j
            &&& slot_tid(tasks[i]) == Some(tid)
            &&& forall|k: int| 0 <= k < i ==> #[trigger] slot_tid(tasks[k]) != Some(tid)
        }),
    decreases j,
{
    if exists|k: int| 0 <= k < j && #[trigger] slot_tid(tasks[k]) == Some(tid) {
        let k = choose|k: int| 0 <= k < j && #[trigger] slot_tid(tasks[k]) == Some(tid);
        lemma_first_slot_exists(tasks, tid, k);
    } else {
        lemma_first_slot(tasks, tid, j);
    }
}

/// A new thread's rows, one zero per resource kind, keep the tables
/// well-formed: every row of the allocation and need matrices still has one
/// entry per resource kind after `update_matrix`.
pub proof fn lemma_new_row_keeps_wf(available: Seq<isize>, allocation: Seq<Seq<isize>>, need: Seq<Seq<isize>>)
    requires
        matrices_wf(available, allocation, need),
    ensures
        matrices_wf(available, allocation.push(zeros(available.len())), need.push(zeros(available.len()))),
        allocation_nonneg(allocation) ==> allocation_nonneg(allocation.push(zeros(available.len()))),
{
    let a2 = allocation.push(zeros(available.len()));
    let n2 = need.push(zeros(available.len()));
    assert forall|i: int| 0 <= i < a2.len() implies #[trigger] a2[i].len() == available.len() by {
        if i < allocation.len() {
            assert(a2[i] == allocation[i]);
        }
    }
    assert forall|i: int| 0 <= i < n2.len() implies #[trigger] n2[i].len() == available.len() by {
        if i < need.len() {
            assert(n2[i] == need[i]);
        }
    }
    if allocation_nonneg(allocation) {
        assert forall|i: int, j: int| 0 <= i < a2.len() && 0 <= j < a2[i].len() implies #[trigger] a2[i][j] >= 0 by {
            if i < allocation.len() {
                assert(a2[i] == allocation[i]);
            }
        }
    }
}

/// Granting a unit moves it from need to allocation: stepping an entry of
/// the allocation matrix up (`update_*_allocation` with `op` 0) and the
/// same entry of the need matrix down (`update_*_need` with `op` 1) keeps
/// their sum, and changes no other entry.
pub proof fn lemma_grant_keeps_total(alloc: Seq<Seq<isize>>, need: Seq<Seq<isize>>, i: int, j: int)
    requires
        0 <= i < alloc.len(),
        0 <= j < alloc[i].len(),
        0 <= i < need.len(),
        0 <= j < need[i].len(),
        alloc[i][j] < isize::MAX,
        need[i][j] > isize::MIN,
    ensures
        ({
            let a2 = alloc.update(i, alloc[i].update(j, stepped(alloc[i][j], 0) as isize));
            let n2 = need.update(i, need[i].update(j, stepped(need[i][j], 1) as isize));
            &&& a2[i][j] + n2[i][j] == alloc[i][j] + need[i][j]
            &&& forall|k: int, l: int|
                0 <= k < alloc.len() && 0 <= l < alloc[k].len() && (k != i || l != j) ==> #[trigger] a2[k][l] == alloc[k][l]
            &&& forall|k: int, l: int|
                0 <= k < need.len() && 0 <= l < need[k].len() && (k != i || l != j) ==> #[trigger] n2[k][l] == need[k][l]
        }),
{
}

/// Stepping an entry up and then down restores the matrix: an `update_*`
/// call with `op` 0 followed by the same call with `op` 1 undoes it.
pub proof fn lemma_step_up_then_down(m: Seq<Seq<isize>>, i: int, j: int)
    requires
        0 <= i < m.len(),
        0 <= j < m[i].len(),
        m[i][j] < isize::MAX,
    ensures
        ({
            let m1 = m.update(i, m[i].update(j, stepped(m[i][j], 0) as isize));
            let m2 = m1.update(i, m1[i].update(j, stepped(m1[i][j], 1) as isize));
            m2 == m
        }),
{
    let m1 = m.update(i, m[i].update(j, stepped(m[i][j], 0) as isize));
    let m2 = m1.update(i, m1[i].update(j, stepped(m1[i][j], 1) as isize));
    assert(m2[i] =~= m[i]);
    assert(m2 =~= m);
}

} // verus!
