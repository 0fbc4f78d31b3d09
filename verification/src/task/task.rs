//! Task control blocks: the state of one task and the changes it goes through.
use vstd::prelude::*;
use crate::config::{PAGE_SIZE, TRAP_CONTEXT_BASE, USER_STACK_SIZE, page_count};
use crate::mm::{
    MapArea, MapPermission, MemorySet, VirtAddr, VirtPageNum, ceil_spec, first_area_starting_at, floor_spec,
    permission_from_prot, prot_to_perm,
};
use crate::trap::TrapContext;
use crate::task::id::{KernelStack, PidHandle, RecycleAllocator, handed_out};

verus! {

/// Execution state of a task.
#[derive(Clone, Copy, Debug, PartialEq, Eq, Structural)]
pub enum TaskStatus {
    /// uninitialized
    UnInit,
    /// ready to run
    Ready,
    /// running
    Running,
    /// exited
    Zombie,
}

/// The user resources of a thread: its thread id and the base of its user stack.
#[derive(Clone, Copy, Debug, PartialEq, Eq, Structural)]
pub struct TaskUserRes {
    pub tid: usize,
    pub ustack_base: usize,
}

impl TaskUserRes {
    /// The bottom of the thread's user stack.
    pub open spec fn ustack_bottom_spec(self) -> int {
        self.ustack_base + self.tid * (PAGE_SIZE + USER_STACK_SIZE)
    }

    /// The top of the thread's user stack.
    pub open spec fn ustack_top_spec(self) -> int {
        self.ustack_bottom_spec() + USER_STACK_SIZE
    }

    /// The bottom of the thread's trap-context page.
    pub open spec fn trap_cx_bottom_spec(self) -> int {
        TRAP_CONTEXT_BASE - self.tid * PAGE_SIZE
    }

    /// The user stack and the trap-context page of the thread fit in the
    /// address range.
    pub open spec fn fits(self) -> bool {
        &&& self.ustack_top_spec() <= usize::MAX
        &&& self.tid * PAGE_SIZE <= TRAP_CONTEXT_BASE
    }

    /// The base of the thread's user stack area.
    pub fn ustack_base(&self) -> (base: usize)
        ensures
            base == self.ustack_base,
    {
        self.ustack_base
    }

    /// The top of the thread's user stack.
    pub fn ustack_top(&self) -> (top: usize)
        requires
            self.fits(),
        ensures
            top == self.ustack_top_spec(),
    {
        self.ustack_base + self.tid * (PAGE_SIZE + USER_STACK_SIZE) + USER_STACK_SIZE
    }

    /// `after` is `before` with the thread's user stack and trap-context
    /// page mapped as two new areas.
    pub open spec fn user_res_mapped(self, before: Seq<MapArea>, after: Seq<MapArea>) -> bool {
        after == before.push(
            MapArea {
                start_vpn: floor_spec(VirtAddr::mask_spec(self.ustack_bottom_spec() as usize)) as usize,
                end_vpn: ceil_spec(VirtAddr::mask_spec(self.ustack_top_spec() as usize)) as usize,
                perm: (MapPermission::R + MapPermission::W + MapPermission::U) as u8,
            },
        ).push(
            MapArea {
                start_vpn: floor_spec(VirtAddr::mask_spec(self.trap_cx_bottom_spec() as usize)) as usize,
                end_vpn: ceil_spec(VirtAddr::mask_spec((self.trap_cx_bottom_spec() + PAGE_SIZE) as usize)) as usize,
                perm: (MapPermission::R + MapPermission::W) as u8,
            },
        )
    }

    /// Maps the thread's user stack and trap-context page into `memory_set`.
    pub fn alloc_user_res(&self, memory_set: &mut MemorySet)
        requires
            self.fits(),
        ensures
            final(memory_set).token_spec() == old(memory_set).token_spec(),
            final(memory_set)@ == old(memory_set)@.push(
                MapArea {
                    start_vpn: floor_spec(VirtAddr::mask_spec(self.ustack_bottom_spec() as usize)) as usize,
                    end_vpn: ceil_spec(VirtAddr::mask_spec(self.ustack_top_spec() as usize)) as usize,
                    perm: (MapPermission::R + MapPermission::W + MapPermission::U) as u8,
                },
            ).push(
                MapArea {
                    start_vpn: floor_spec(VirtAddr::mask_spec(self.trap_cx_bottom_spec() as usize)) as usize,
                    end_vpn: ceil_spec(VirtAddr::mask_spec((self.trap_cx_bottom_spec() + PAGE_SIZE) as usize)) as usize,
                    perm: (MapPermission::R + MapPermission::W) as u8,
                },
            ),
    {
        let ustack_bottom = self.ustack_base + self.tid * (PAGE_SIZE + USER_STACK_SIZE);
        let ustack_top = ustack_bottom + USER_STACK_SIZE;
        memory_set.insert_framed_area(
            VirtAddr::from_usize(ustack_bottom),
            VirtAddr::from_usize(ustack_top),
            MapPermission { bits: MapPermission::R + MapPermission::W + MapPermission::U },
        );
        let trap_cx_bottom = TRAP_CONTEXT_BASE - self.tid * PAGE_SIZE;
        let trap_cx_top = trap_cx_bottom + PAGE_SIZE;
        memory_set.insert_framed_area(
            VirtAddr::from_usize(trap_cx_bottom),
            VirtAddr::from_usize(trap_cx_top),
            MapPermission { bits: MapPermission::R + MapPermission::W },
        );
    }
}

/// The part of a task control block that changes while the task runs.
pub struct TaskControlBlockInner {
    /// The trap context page of the task.
    pub trap_cx: TrapContext,
    /// Application data lies below this address in the address space.
    pub base_size: usize,
    /// Execution state.
    pub task_status: TaskStatus,
    /// Address space of the task.
    pub memory_set: MemorySet,
    /// Pid of the parent, if any.
    pub parent: Option<usize>,
    /// Pids of the children.
    pub children: Vec<usize>,
    /// Set when the task exits.
    pub exit_code: i32,
    /// Bottom of the heap.
    pub heap_bottom: usize,
    /// Program break: top of the heap.
    pub program_brk: usize,
    /// Stride-scheduling position.
    pub stride: usize,
    /// Stride-scheduling step.
    pub pass: usize,
    /// Scheduling priority.
    pub priority: usize,
    /// User resources, for a task that is a thread of a process.
    pub res: Option<TaskUserRes>,
}

/// Everything in `a` and `b` but the address space and the program break agrees.
pub open spec fn same_but_memory(a: &TaskControlBlockInner, b: &TaskControlBlockInner) -> bool {
    &&& a.trap_cx == b.trap_cx
    &&& a.base_size == b.base_size
    &&& a.task_status == b.task_status
    &&& a.memory_set.token_spec() == b.memory_set.token_spec()
    &&& a.parent == b.parent
    &&& a.children@ == b.children@
    &&& a.exit_code == b.exit_code
    &&& a.heap_bottom == b.heap_bottom
    &&& a.stride == b.stride
    &&& a.pass == b.pass
    &&& a.priority == b.priority
    &&& a.res == b.res
}

/// Everything in `a` and `b` but the scheduling fields agrees.
pub open spec fn same_but_scheduling(a: &TaskControlBlockInner, b: &TaskControlBlockInner) -> bool {
    &&& a.trap_cx == b.trap_cx
    &&& a.base_size == b.base_size
    &&& a.task_status == b.task_status
    &&& a.memory_set@ == b.memory_set@
    &&& a.memory_set.token_spec() == b.memory_set.token_spec()
    &&& a.parent == b.parent
    &&& a.children@ == b.children@
    &&& a.exit_code == b.exit_code
    &&& a.heap_bottom == b.heap_bottom
    &&& a.program_brk == b.program_brk
    &&& a.res == b.res
}

impl TaskControlBlockInner {
    /// The trap context of the task.
    pub fn get_trap_cx(&mut self) -> (cx: &mut TrapContext)
        ensures
            *cx == old(self).trap_cx,
            *final(self) == (TaskControlBlockInner { trap_cx: *final(cx), ..*old(self) }),
    {
        &mut self.trap_cx
    }

    /// The token of the task's address space.
    pub fn get_user_token(&self) -> (token: usize)
        ensures
            token == self.memory_set.token_spec(),
    {
        self.memory_set.token()
    }

    /// The execution state of the task.
    pub fn get_status(&self) -> (status: TaskStatus)
        ensures
            status == self.task_status,
    {
        self.task_status
    }

    /// Whether the task has exited.
    pub fn is_zombie(&self) -> (zombie: bool)
        ensures
            zombie == (self.task_status == TaskStatus::Zombie),
    {
        self.get_status() == TaskStatus::Zombie
    }
}

/// Task control block: the identity of a task and its changing state.
pub struct TaskControlBlock {
    /// Process identifier.
    pub pid: PidHandle,
    /// Kernel stack of the task.
    pub kernel_stack: KernelStack,
    pub inner: TaskControlBlockInner,
}

/// The page that holds the start of an `mmap` range.
pub open spec fn mmap_start_vpn(start: usize) -> int {
    (start as int % 0x80_0000_0000int) / PAGE_SIZE as int
}

/// The page just past an `mmap` range of `len` bytes from `start`.
pub open spec fn mmap_end_vpn(start: usize, len: usize) -> int {
    (mmap_start_vpn(start) + (len as int + PAGE_SIZE as int - 1) / PAGE_SIZE as int) % 0x800_0000int
}

/// Some page in `[lo, hi)` is mapped in `ms`.
pub open spec fn range_has_mapped(ms: &MemorySet, lo: int, hi: int) -> bool {
    exists|vpn: int| lo <= vpn < hi && #[trigger] ms.mapped(vpn)
}

impl TaskControlBlock {
    /// The changing state of the task.
    pub open spec fn inner_view(&self) -> TaskControlBlockInner {
        self.inner
    }

    /// Exclusive access to the changing state of the task.
    pub fn inner_exclusive_access(&mut self) -> (inner: &mut TaskControlBlockInner)
        ensures
            *inner == old(self).inner_view(),
            final(self).inner_view() == *final(inner),
            final(self).pid == old(self).pid,
            final(self).kernel_stack == old(self).kernel_stack,
    {
        &mut self.inner
    }

    /// The token of the task's address space.
    pub fn get_user_token(&self) -> (token: usize)
        ensures
            token == self.inner_view().memory_set.token_spec(),
    {
        self.inner.memory_set.token()
    }

    /// A new ready task that runs the program loaded in `memory_set`, starting
    /// at `entry_point` with user stack pointer `user_sp`.
    pub fn new(
        memory_set: MemorySet,
        user_sp: usize,
        entry_point: usize,
        pid_allocator: &mut RecycleAllocator,
        kernel_stack: KernelStack,
        kernel_satp: usize,
        trap_handler: usize,
    ) -> (tcb: Self)
        requires
            old(pid_allocator).wf(),
            old(pid_allocator).can_allocate(),
        ensures
            handed_out(old(pid_allocator), final(pid_allocator), tcb.pid.0),
            tcb.kernel_stack == kernel_stack,
            tcb.inner_view().memory_set == memory_set,
            tcb.inner_view().trap_cx.x@ == Seq::new(32, |i: int| 0usize).update(2, user_sp),
            tcb.inner_view().trap_cx.sepc == entry_point,
            tcb.inner_view().trap_cx.kernel_satp == kernel_satp,
            tcb.inner_view().trap_cx.kernel_sp == kernel_stack.top,
            tcb.inner_view().trap_cx.trap_handler == trap_handler,
            tcb.inner_view().base_size == user_sp,
            tcb.inner_view().task_status == TaskStatus::Ready,
            tcb.inner_view().parent.is_none(),
            tcb.inner_view().children@ == Seq::<usize>::empty(),
            tcb.inner_view().exit_code == 0,
            tcb.inner_view().heap_bottom == user_sp,
            tcb.inner_view().program_brk == user_sp,
            tcb.inner_view().stride == 0,
            tcb.inner_view().pass == 0,
            tcb.inner_view().priority == 16,
            tcb.inner_view().res.is_none(),
    {
        let pid = PidHandle(pid_allocator.allocate());
        let kernel_stack_top = kernel_stack.get_top();
        let trap_cx = TrapContext::app_init_context(
            entry_point,
            user_sp,
            kernel_satp,
            kernel_stack_top,
            trap_handler,
        );
        TaskControlBlock {
            pid,
            kernel_stack,
            inner: TaskControlBlockInner {
                trap_cx,
                base_size: user_sp,
                task_status: TaskStatus::Ready,
                memory_set,
                parent: None,
                children: Vec::new(),
                exit_code: 0,
                heap_bottom: user_sp,
                program_brk: user_sp,
                stride: 0,
                pass: 0,
                priority: 16,
                res: None,
            },
        }
    }

    /// A ready thread with process id `pid`, user resources `res`, kernel
    /// stack `kernel_stack` and trap context `trap_cx`; it shares the
    /// address space whose token is `token`, and holds no pages of its own.
    pub fn new_thread(
        pid: PidHandle,
        res: TaskUserRes,
        kernel_stack: KernelStack,
        trap_cx: TrapContext,
        token: usize,
    ) -> (tcb: Self)
        ensures
            tcb.pid == pid,
            tcb.kernel_stack == kernel_stack,
            tcb.inner.res == Some(res),
            tcb.inner.trap_cx == trap_cx,
            tcb.inner.task_status == TaskStatus::Ready,
            tcb.inner.memory_set@ == Seq::<MapArea>::empty(),
            tcb.inner.memory_set.token_spec() == token,
            tcb.inner.parent.is_none(),
            tcb.inner.children@ == Seq::<usize>::empty(),
            tcb.inner.exit_code == 0,
            tcb.inner.base_size == res.ustack_base,
            tcb.inner.heap_bottom == res.ustack_base,
            tcb.inner.program_brk == res.ustack_base,
            tcb.inner.stride == 0,
            tcb.inner.pass == 0,
            tcb.inner.priority == 16,
    {
        TaskControlBlock {
            pid,
            kernel_stack,
            inner: TaskControlBlockInner {
                trap_cx,
                base_size: res.ustack_base,
                task_status: TaskStatus::Ready,
                memory_set: MemorySet::new_bare(token),
                parent: None,
                children: Vec::new(),
                exit_code: 0,
                heap_bottom: res.ustack_base,
                program_brk: res.ustack_base,
                stride: 0,
                pass: 0,
                priority: 16,
                res: Some(res),
            },
        }
    }

    /// Replaces the address space with the program loaded in `memory_set` and
    /// starts it at `entry_point` with user stack pointer `user_sp`.
    pub fn exec(
        &mut self,
        memory_set: MemorySet,
        user_sp: usize,
        entry_point: usize,
        kernel_satp: usize,
        trap_handler: usize,
    )
        ensures
            final(self).pid == old(self).pid,
            final(self).kernel_stack == old(self).kernel_stack,
            final(self).inner_view().memory_set == memory_set,
            final(self).inner_view().base_size == user_sp,
            final(self).inner_view().trap_cx.x@ == Seq::new(32, |i: int| 0usize).update(2, user_sp),
            final(self).inner_view().trap_cx.sepc == entry_point,
            final(self).inner_view().trap_cx.kernel_satp == kernel_satp,
            final(self).inner_view().trap_cx.kernel_sp == old(self).kernel_stack.top,
            final(self).inner_view().trap_cx.trap_handler == trap_handler,
            final(self).inner_view().task_status == old(self).inner_view().task_status,
            final(self).inner_view().parent == old(self).inner_view().parent,
            final(self).inner_view().children@ == old(self).inner_view().children@,
            final(self).inner_view().exit_code == old(self).inner_view().exit_code,
            final(self).inner_view().heap_bottom == old(self).inner_view().heap_bottom,
            final(self).inner_view().program_brk == old(self).inner_view().program_brk,
            final(self).inner_view().stride == old(self).inner_view().stride,
            final(self).inner_view().pass == old(self).inner_view().pass,
            final(self).inner_view().priority == old(self).inner_view().priority,
            final(self).inner_view().res == old(self).inner_view().res,
    {
        let kernel_stack_top = self.kernel_stack.get_top();
        self.inner.memory_set = memory_set;
        self.inner.base_size = user_sp;
        self.inner.trap_cx = TrapContext::app_init_context(
            entry_point,
            user_sp,
            kernel_satp,
            kernel_stack_top,
            trap_handler,
        );
    }

    /// Forks a child task: it gets a pid from `pid_allocator`, kernel stack
    /// `kernel_stack`, the same areas as the parent's address space under the
    /// token `token`, and the parent's heap, stack base, trap context and
    /// scheduling state. The child is recorded among the parent's children.
    pub fn fork(&mut self, pid_allocator: &mut RecycleAllocator, kernel_stack: KernelStack, token: usize) -> (child: Self)
        requires
            old(pid_allocator).wf(),
            old(pid_allocator).can_allocate(),
        ensures
            handed_out(old(pid_allocator), final(pid_allocator), child.pid.0),
            final(self).pid == old(self).pid,
            final(self).kernel_stack == old(self).kernel_stack,
            final(self).inner_view().children@ == old(self).inner_view().children@.push(child.pid.0),
            same_but_children(&final(self).inner_view(), &old(self).inner_view()),
            child.kernel_stack == kernel_stack,
            child.inner_view().trap_cx == (TrapContext {
                kernel_sp: kernel_stack.top,
                ..old(self).inner_view().trap_cx
            }),
            child.inner_view().memory_set@ == old(self).inner_view().memory_set@,
            child.inner_view().memory_set.token_spec() == token,
            child.inner_view().base_size == old(self).inner_view().base_size,
            child.inner_view().task_status == TaskStatus::Ready,
            child.inner_view().parent == Some(old(self).pid.0),
            child.inner_view().children@ == Seq::<usize>::empty(),
            child.inner_view().exit_code == 0,
            child.inner_view().heap_bottom == old(self).inner_view().heap_bottom,
            child.inner_view().program_brk == old(self).inner_view().program_brk,
            child.inner_view().stride == old(self).inner_view().stride,
            child.inner_view().pass == old(self).inner_view().pass,
            child.inner_view().priority == old(self).inner_view().priority,
            child.inner_view().res == old(self).inner_view().res,
    {
        let memory_set = MemorySet::from_existed_user(&self.inner.memory_set, token);
        let pid = PidHandle(pid_allocator.allocate());
        let kernel_stack_top = kernel_stack.get_top();
        let mut trap_cx = self.inner.trap_cx;
        trap_cx.kernel_sp = kernel_stack_top;
        let child = TaskControlBlock {
            pid,
            kernel_stack,
            inner: TaskControlBlockInner {
                trap_cx,
                base_size: self.inner.base_size,
                task_status: TaskStatus::Ready,
                memory_set,
                parent: Some(self.pid.0),
                children: Vec::new(),
                exit_code: 0,
                heap_bottom: self.inner.heap_bottom,
                program_brk: self.inner.program_brk,
                stride: self.inner.stride,
                pass: self.inner.pass,
                priority: self.inner.priority,
                res: self.inner.res,
            },
        };
        self.inner.children.push(pid.0);
        child
    }

    /// A second task control block holding the same task: the same
    /// identity, and a copy of every field of the changing state.
    pub fn duplicate(&self) -> (t: Self)
        ensures
            same_task(t, *self),
    {
        let token = self.inner.memory_set.token();
        TaskControlBlock {
            pid: self.pid,
            kernel_stack: self.kernel_stack,
            inner: TaskControlBlockInner {
                trap_cx: self.inner.trap_cx,
                base_size: self.inner.base_size,
                task_status: self.inner.task_status,
                memory_set: MemorySet::from_existed_user(&self.inner.memory_set, token),
                parent: self.inner.parent,
                children: copy_vec(&self.inner.children),
                exit_code: self.inner.exit_code,
                heap_bottom: self.inner.heap_bottom,
                program_brk: self.inner.program_brk,
                stride: self.inner.stride,
                pass: self.inner.pass,
                priority: self.inner.priority,
                res: self.inner.res,
            },
        }
    }

    /// The process id of the task.
    pub fn getpid(&self) -> (pid: usize)
        ensures
            pid == self.pid.0,
    {
        self.pid.0
    }

    /// Moves the program break by `size` bytes and returns the old break;
    /// `None`, with nothing changed, when the new break would fall below the
    /// heap bottom or the address space has no heap area. Break and heap
    /// bottom are compared as signed addresses.
    pub fn change_program_brk(&mut self, size: i32) -> (old_brk: Option<usize>)
        requires
            brk_fits(old(self).inner_view().program_brk, size),
        ensures
            brk_changed(*old(self), *final(self), size, old_brk),
    {
        let heap_bottom = self.inner.heap_bottom;
        let old_break = self.inner.program_brk;
        let new_brk: isize = self.inner.program_brk as isize + size as isize;
        if new_brk < heap_bottom as isize {
            return None;
        }
        let result = if size < 0 {
            self.inner.memory_set.shrink_to(VirtAddr(heap_bottom), VirtAddr(new_brk as usize))
        } else {
            self.inner.memory_set.append_to(VirtAddr(heap_bottom), VirtAddr(new_brk as usize))
        };
        if result {
            self.inner.program_brk = new_brk as usize;
            Some(old_break)
        } else {
            None
        }
    }

    /// Maps `len` bytes from the page-aligned address `start` with protection
    /// `prot` (bit 0 read, bit 1 write, bit 2 execute) as one new area.
    /// Returns 0 on success; -1, with nothing changed, when `start` is not
    /// page-aligned, `prot` has bits other than the low three or none of
    /// them, or a page of the range is already mapped. A zero `len` maps
    /// nothing and returns 0 once `start` is aligned.
    #[verifier::rlimit(30)]
    pub fn mmap(&mut self, start: usize, len: usize, prot: usize) -> (r: isize)
        ensures
            task_mmap_result(*old(self), *final(self), start, len, prot, r),
    {
        if start % PAGE_SIZE != 0 {
            return -1;
        }
        if len == 0 {
            return 0;
        }
        if (prot & !7usize) != 0 {
            return -1;
        }
        if (prot & 7) == 0 {
            return -1;
        }
        let perm = permission_from_prot(prot);
        let page_cnt = page_count(len);
        let start_va = VirtAddr::from_usize(start);
        let start_vpn = start_va.floor();
        let end_vpn = VirtPageNum::from_usize(start_vpn.0 + page_cnt);
        let end_va = VirtAddr::from_vpn(end_vpn);
        let mut vpn = start_vpn.0;
        while vpn < end_vpn.0
            invariant
                start_vpn.0 <= vpn,
                start_vpn.0 == mmap_start_vpn(start),
                end_vpn.0 == mmap_end_vpn(start, len),
                forall|v: int| start_vpn.0 <= v < vpn ==> !#[trigger] self.inner.memory_set.mapped(v),
            decreases end_vpn.0 - vpn,
        {
            if let Some(pte) = self.inner.memory_set.translate(VirtPageNum(vpn)) {
                if pte.is_valid() {
                    return -1;
                }
            }
            vpn = vpn + 1;
        }
        proof {
            assert(!range_has_mapped(&self.inner.memory_set, mmap_start_vpn(start), mmap_end_vpn(start, len)));
            assert(floor_spec(start_va.0) == mmap_start_vpn(start));
        }
        self.inner.memory_set.insert_framed_area(start_va, end_va, perm);
        0
    }

    /// Removes the area that starts at the page-aligned address `start`.
    /// Returns -1, with nothing changed, when `start` is not page-aligned,
    /// and 0 otherwise; a zero `len` removes nothing.
    pub fn munmap(&mut self, start: usize, len: usize) -> (r: isize)
        ensures
            final(self).pid == old(self).pid,
            final(self).kernel_stack == old(self).kernel_stack,
            same_but_memory(&final(self).inner_view(), &old(self).inner_view()),
            final(self).inner_view().program_brk == old(self).inner_view().program_brk,
            r == -1 <==> start % PAGE_SIZE != 0,
            r == 0 <==> start % PAGE_SIZE == 0,
            r == -1 || len == 0 ==> final(self).inner_view().memory_set@ == old(self).inner_view().memory_set@,
            r == 0 && len != 0 ==> match first_area_starting_at(
                old(self).inner_view().memory_set@,
                mmap_start_vpn(start) as usize,
            ) {
                Some(i) => final(self).inner_view().memory_set@ == old(self).inner_view().memory_set@.remove(i),
                None => final(self).inner_view().memory_set@ == old(self).inner_view().memory_set@,
            },
    {
        if start % PAGE_SIZE != 0 {
            return -1;
        }
        if len == 0 {
            return 0;
        }
        let start_va = VirtAddr::from_usize(start);
        let start_vpn = start_va.floor();
        self.inner.memory_set.remove_area_with_start_vpn(start_vpn);
        0
    }

    /// Sets the priority to `prio` and the stride step to `big_stride / prio`;
    /// returns `prio`, or -1 with nothing changed when `prio` is below 2.
    pub fn set_priority(&mut self, big_stride: usize, prio: isize) -> (r: isize)
        ensures
            final(self).pid == old(self).pid,
            final(self).kernel_stack == old(self).kernel_stack,
            same_but_scheduling(&final(self).inner_view(), &old(self).inner_view()),
            final(self).inner_view().stride == old(self).inner_view().stride,
            prio < 2 ==> r == -1 && final(self).inner_view().priority == old(self).inner_view().priority
                && final(self).inner_view().pass == old(self).inner_view().pass,
            prio >= 2 ==> r == prio && final(self).inner_view().priority == prio && final(self).inner_view().pass
                == big_stride / (prio as usize),
    {
        if prio < 2 {
            return -1;
        }
        self.inner.priority = prio as usize;
        self.inner.pass = big_stride / (prio as usize);
        prio
    }

    /// The stride of the task.
    pub fn get_stride(&self) -> (stride: usize)
        ensures
            stride == self.inner_view().stride,
    {
        self.inner.stride
    }

    /// Advances the stride of the task by its pass.
    pub fn update_stride(&mut self)
        requires
            old(self).inner_view().stride + old(self).inner_view().pass <= usize::MAX,
        ensures
            final(self).pid == old(self).pid,
            final(self).kernel_stack == old(self).kernel_stack,
            same_but_scheduling(&final(self).inner_view(), &old(self).inner_view()),
            final(self).inner_view().stride == old(self).inner_view().stride + old(self).inner_view().pass,
            final(self).inner_view().pass == old(self).inner_view().pass,
            final(self).inner_view().priority == old(self).inner_view().priority,
    {
        self.inner.stride = self.inner.stride + self.inner.pass;
    }
}

/// The break `program_brk`, read as a signed address, moved by `size`
/// bytes stays inside `isize`.
pub open spec fn brk_fits(program_brk: usize, size: i32) -> bool {
    isize::MIN <= program_brk as isize + size as int <= isize::MAX
}

/// `t` is task `s` after moving its program break by `size` bytes, with
/// result `old_brk`: the break and the end of the heap area move when the
/// new break, as a signed address, stays at or above the heap bottom, also
/// read as a signed address, and the heap area exists; otherwise nothing
/// changes and the result is `None`.
pub open spec fn brk_changed(s: TaskControlBlock, t: TaskControlBlock, size: i32, old_brk: Option<usize>) -> bool {
    let inner = s.inner;
    let new_brk = inner.program_brk as isize + size as int;
    let heap = first_area_starting_at(inner.memory_set@, floor_spec(inner.heap_bottom) as usize);
    &&& t.pid == s.pid
    &&& t.kernel_stack == s.kernel_stack
    &&& same_but_memory(&t.inner, &s.inner)
    &&& if new_brk < inner.heap_bottom as isize || heap.is_none() {
        &&& old_brk.is_none()
        &&& t.inner.program_brk == inner.program_brk
        &&& t.inner.memory_set@ == inner.memory_set@
    } else {
        &&& old_brk == Some(inner.program_brk)
        &&& t.inner.program_brk == new_brk as usize
        &&& t.inner.memory_set@ == inner.memory_set@.update(
            heap.unwrap(),
            MapArea { end_vpn: ceil_spec(new_brk as usize) as usize, ..inner.memory_set@[heap.unwrap()] },
        )
    }
}

/// `a` and `b` hold the same task: the same identity, and every field of
/// the changing state agrees, the address space by its areas and token.
pub open spec fn same_task(a: TaskControlBlock, b: TaskControlBlock) -> bool {
    &&& a.pid == b.pid
    &&& a.kernel_stack == b.kernel_stack
    &&& a.inner.trap_cx == b.inner.trap_cx
    &&& a.inner.base_size == b.inner.base_size
    &&& a.inner.task_status == b.inner.task_status
    &&& a.inner.memory_set@ == b.inner.memory_set@
    &&& a.inner.memory_set.token_spec() == b.inner.memory_set.token_spec()
    &&& a.inner.parent == b.inner.parent
    &&& a.inner.children@ == b.inner.children@
    &&& a.inner.exit_code == b.inner.exit_code
    &&& a.inner.heap_bottom == b.inner.heap_bottom
    &&& a.inner.program_brk == b.inner.program_brk
    &&& a.inner.stride == b.inner.stride
    &&& a.inner.pass == b.inner.pass
    &&& a.inner.priority == b.inner.priority
    &&& a.inner.res == b.inner.res
}

/// A copy of `v`.
pub fn copy_vec<T: Copy>(v: &Vec<T>) -> (c: Vec<T>)
    ensures
        c@ == v@,
{
    let mut c: Vec<T> = Vec::new();
    let mut i: usize = 0;
    while i < v.len()
        invariant
            0 <= i <= v.len(),
            c@ == v@.subrange(0, i as int),
        decreases v.len() - i,
    {
        c.push(v[i]);
        i = i + 1;
    }
    c
}

/// Everything in `a` and `b` but the trap context and the user resources agrees.
pub open spec fn same_but_context(a: &TaskControlBlockInner, b: &TaskControlBlockInner) -> bool {
    &&& a.base_size == b.base_size
    &&& a.task_status == b.task_status
    &&& a.memory_set@ == b.memory_set@
    &&& a.memory_set.token_spec() == b.memory_set.token_spec()
    &&& a.parent == b.parent
    &&& a.children@ == b.children@
    &&& a.exit_code == b.exit_code
    &&& a.heap_bottom == b.heap_bottom
    &&& a.program_brk == b.program_brk
    &&& a.stride == b.stride
    &&& a.pass == b.pass
    &&& a.priority == b.priority
}

/// Everything in `a` and `b` but the children agrees.
pub open spec fn same_but_children(a: &TaskControlBlockInner, b: &TaskControlBlockInner) -> bool {
    &&& a.trap_cx == b.trap_cx
    &&& a.base_size == b.base_size
    &&& a.task_status == b.task_status
    &&& a.memory_set@ == b.memory_set@
    &&& a.memory_set.token_spec() == b.memory_set.token_spec()
    &&& a.parent == b.parent
    &&& a.exit_code == b.exit_code
    &&& a.heap_bottom == b.heap_bottom
    &&& a.program_brk == b.program_brk
    &&& a.stride == b.stride
    &&& a.pass == b.pass
    &&& a.priority == b.priority
    &&& a.res == b.res
}

/// Moving the program break by `size` and then by `-size` succeeds whenever
/// the first move did and the break started at or above the heap bottom
/// (both read as signed addresses), and brings the break back; this holds
/// for growing and for shrinking moves.
pub proof fn lemma_sbrk_round_trip(
    s: TaskControlBlock,
    t: TaskControlBlock,
    u: TaskControlBlock,
    size: i32,
    first: Option<usize>,
    second: Option<usize>,
)
    requires
        s.inner.heap_bottom as isize <= s.inner.program_brk as isize,
        brk_fits(s.inner.program_brk, size),
        size != i32::MIN,
        brk_changed(s, t, size, first),
        first.is_some(),
        brk_changed(t, u, (-size) as i32, second),
    ensures
        second == Some(t.inner.program_brk),
        u.inner.program_brk == s.inner.program_brk,
{
    let hb = s.inner.heap_bottom;
    let v = floor_spec(hb) as usize;
    let ms = s.inner.memory_set@;
    let i = first_area_starting_at(ms, v).unwrap();
    let ms_t = t.inner.memory_set@;
    let j = choose|j: int| 0 <= j < ms.len() && #[trigger] ms[j].start_vpn == v;
    crate::mm::lemma_first_area_exists(ms, v, j);
    assert(ms_t[i].start_vpn == v);
    assert forall|k: int| 0 <= k < i implies (#[trigger] ms_t[k]).start_vpn != v by {
        assert(ms_t[k] == ms[k]);
    }
    crate::mm::lemma_first_area_starting_at(ms_t, v, i);
    let neg: i32 = (-size) as i32;
    assert(neg == -size);
    let b: usize = s.inner.program_brk;
    let nb: isize = (b as isize + size as int) as isize;
    assert(nb == b as isize + size as int);
    assert(t.inner.program_brk == nb as usize);
    assert((nb as usize) as isize == nb) by (bit_vector);
    assert((b as isize) as usize == b) by (bit_vector);
}

/// `t` is task `s` after `mmap(start, len, prot)` returned `r` (see
/// `TaskControlBlock::mmap`).
pub open spec fn task_mmap_result(
    s: TaskControlBlock,
    t: TaskControlBlock,
    start: usize,
    len: usize,
    prot: usize,
    r: isize,
) -> bool {
    &&& t.pid == s.pid
    &&& t.kernel_stack == s.kernel_stack
    &&& same_but_memory(&t.inner, &s.inner)
    &&& t.inner.program_brk == s.inner.program_brk
    &&& r == 0 || r == -1
    &&& r == -1 <==> (start % PAGE_SIZE != 0 || (len != 0 && (prot & !7usize != 0 || prot & 7 == 0
        || range_has_mapped(&s.inner.memory_set, mmap_start_vpn(start), mmap_end_vpn(start, len)))))
    &&& r == -1 || len == 0 ==> t.inner.memory_set@ == s.inner.memory_set@
    &&& r == 0 && len != 0 ==> t.inner.memory_set@ == s.inner.memory_set@.push(
        MapArea {
            start_vpn: mmap_start_vpn(start) as usize,
            end_vpn: ceil_spec(((mmap_end_vpn(start, len) as u64) * 4096u64) as usize) as usize,
            perm: prot_to_perm(prot),
        },
    )
}

/// `mmap` on a task, for a page-aligned `start` below the Sv39 limit, an
/// allowed `prot` and `len > 0`, succeeds exactly when none of the pages
/// holding the bytes `[start, start + len)` is mapped, that is the pages
/// from `start / PAGE_SIZE` up to, not including,
/// `(start + len + PAGE_SIZE - 1) / PAGE_SIZE`; when it succeeds, exactly
/// those pages become mapped with the permission `prot` asks for, and no
/// other page changes.
pub proof fn lemma_task_mmap_maps_exactly(
    s: TaskControlBlock,
    t: TaskControlBlock,
    start: usize,
    len: usize,
    prot: usize,
    r: isize,
)
    requires
        task_mmap_result(s, t, start, len, prot, r),
        start % PAGE_SIZE == 0,
        len > 0,
        prot & !7usize == 0,
        prot & 7 != 0,
        start + len + PAGE_SIZE <= 0x80_0000_0000,
        start + len + PAGE_SIZE <= usize::MAX,
    ensures
        r == 0 <==> forall|vpn: int|
            start as int / PAGE_SIZE as int <= vpn < (start + len + PAGE_SIZE - 1) / PAGE_SIZE as int
                ==> !#[trigger] s.inner.memory_set.mapped(vpn),
        r == 0 ==> forall|vpn: int|
            #[trigger] t.inner.memory_set.mapped(vpn) <==> (s.inner.memory_set.mapped(vpn) || start as int
                / PAGE_SIZE as int <= vpn < (start + len + PAGE_SIZE - 1) / PAGE_SIZE as int),
        r == 0 ==> t.inner.memory_set@.last().perm == prot_to_perm(prot),
{
    let lo = start as int / PAGE_SIZE as int;
    let hi = (start + len + PAGE_SIZE - 1) / PAGE_SIZE as int;
    assert(start as int % 0x80_0000_0000int == start);
    assert(mmap_start_vpn(start) == lo);
    crate::mm::lemma_aligned_end_page(start as int, len as int);
    vstd::arithmetic::div_mod::lemma_fundamental_div_mod(start + len + PAGE_SIZE - 1, PAGE_SIZE as int);
    assert(hi * PAGE_SIZE <= start + len + PAGE_SIZE - 1);
    assert(0 <= hi < 0x800_0000);
    assert(mmap_end_vpn(start, len) == hi);
    let ms = s.inner.memory_set;
    assert(range_has_mapped(&ms, lo, hi) <==> !(forall|vpn: int| lo <= vpn < hi ==> !#[trigger] ms.mapped(vpn)));
    if r == 0 {
        crate::mm::lemma_ceil_of_page_start(hi);
        assert(((hi as u64) * 4096u64) as usize == hi * PAGE_SIZE);
        assert(ceil_spec(((hi as u64) * 4096u64) as usize) == hi);
        let a = s.inner.memory_set@;
        let b = t.inner.memory_set@;
        assert(b == a.push(MapArea { start_vpn: lo as usize, end_vpn: hi as usize, perm: prot_to_perm(prot) }));
        assert forall|vpn: int|
            #[trigger] t.inner.memory_set.mapped(vpn) <==> (ms.mapped(vpn) || lo <= vpn < hi) by {
            if t.inner.memory_set.mapped(vpn) {
                let i = choose|i: int| 0 <= i < b.len() && #[trigger] b[i].contains(vpn);
                if i < a.len() {
                    assert(a[i] == b[i]);
                }
            }
            if ms.mapped(vpn) {
                let i = choose|i: int| 0 <= i < a.len() && #[trigger] a[i].contains(vpn);
                assert(b[i] == a[i]);
            }
            if lo <= vpn < hi {
                assert(b[a.len() as int].contains(vpn));
            }
        }
    }
}

/// After a successful move of the program break, growing or shrinking,
/// every page from the page of the heap bottom up to the page that holds
/// the last byte below the new break is mapped: the heap area reaches
/// `(new_brk + PAGE_SIZE - 1) / PAGE_SIZE`. The result is the old break.
pub proof fn lemma_brk_keeps_heap_mapped(s: TaskControlBlock, t: TaskControlBlock, size: i32, old_brk: usize)
    requires
        brk_changed(s, t, size, Some(old_brk)),
    ensures
        old_brk == s.inner.program_brk,
        t.inner.heap_bottom == s.inner.heap_bottom,
        forall|vpn: int|
            s.inner.heap_bottom as int / PAGE_SIZE as int <= vpn < (t.inner.program_brk + PAGE_SIZE - 1)
                / PAGE_SIZE as int ==> #[trigger] t.inner.memory_set.mapped(vpn),
{
    let v = floor_spec(s.inner.heap_bottom) as usize;
    let a = s.inner.memory_set@;
    let b = t.inner.memory_set@;
    let i = first_area_starting_at(a, v).unwrap();
    assert(exists|j: int| 0 <= j < a.len() && #[trigger] a[j].start_vpn == v);
    let j = choose|j: int| 0 <= j < a.len() && #[trigger] a[j].start_vpn == v;
    crate::mm::lemma_first_area_exists(a, v, j);
    assert(b[i].start_vpn == v);
    assert(b[i].end_vpn == ceil_spec(t.inner.program_brk));
    assert forall|vpn: int|
        s.inner.heap_bottom as int / PAGE_SIZE as int <= vpn < (t.inner.program_brk + PAGE_SIZE - 1) / PAGE_SIZE as int
            implies #[trigger] t.inner.memory_set.mapped(vpn) by {
        assert(b[i].contains(vpn));
    }
}

/// Moving the program break by `size` succeeds exactly when the new break,
/// as a signed address, stays at or above the heap bottom and some area
/// starts at the heap bottom's page; then the result is the old break and
/// only that area changes: its end becomes the page just past the new
/// break, `(new_brk + PAGE_SIZE - 1) / PAGE_SIZE`, for a growing and for a
/// shrinking move alike. When it fails, break and areas stay as they were.
pub proof fn lemma_brk_outcome(s: TaskControlBlock, t: TaskControlBlock, size: i32, res: Option<usize>)
    requires
        brk_fits(s.inner.program_brk, size),
        brk_changed(s, t, size, res),
    ensures
        res.is_some() <==> (s.inner.heap_bottom as isize <= s.inner.program_brk as isize + size && exists|i: int|
            0 <= i < s.inner.memory_set@.len() && #[trigger] s.inner.memory_set@[i].start_vpn == s.inner.heap_bottom
                / PAGE_SIZE),
        res.is_some() ==> {
            &&& res == Some(s.inner.program_brk)
            &&& t.inner.program_brk as isize == s.inner.program_brk as isize + size
            &&& exists|i: int|
                0 <= i < s.inner.memory_set@.len() && #[trigger] s.inner.memory_set@[i].start_vpn == s.inner.heap_bottom
                    / PAGE_SIZE && t.inner.memory_set@ == s.inner.memory_set@.update(
                    i,
                    MapArea {
                        end_vpn: ((t.inner.program_brk + PAGE_SIZE - 1) / PAGE_SIZE as int) as usize,
                        ..s.inner.memory_set@[i]
                    },
                )
        },
        res.is_none() ==> t.inner.program_brk == s.inner.program_brk && t.inner.memory_set@ == s.inner.memory_set@,
{
    let v = floor_spec(s.inner.heap_bottom) as usize;
    let a = s.inner.memory_set@;
    assert(v == s.inner.heap_bottom / PAGE_SIZE);
    if exists|j: int| 0 <= j < a.len() && #[trigger] a[j].start_vpn == v {
        let j = choose|j: int| 0 <= j < a.len() && #[trigger] a[j].start_vpn == v;
        crate::mm::lemma_first_area_exists(a, v, j);
    }
    if res.is_some() {
        let i = first_area_starting_at(a, v).unwrap();
        let nb: isize = (s.inner.program_brk as isize + size as int) as isize;
        assert(nb == s.inner.program_brk as isize + size as int);
        assert((nb as usize) as isize == nb) by (bit_vector);
        assert(a[i].start_vpn == v);
        assert(t.inner.memory_set@ == a.update(
            i,
            MapArea { end_vpn: ((t.inner.program_brk + PAGE_SIZE - 1) / PAGE_SIZE as int) as usize, ..a[i] },
        ));
    }
}

/// `munmap` undoes `mmap` on a task: the area a successful `mmap` adds is
/// the one `munmap` of the same start removes, as long as no area of the
/// address space started at that page before.
pub proof fn lemma_task_munmap_undoes_mmap(ms0: Seq<MapArea>, ms1: Seq<MapArea>, ms2: Seq<MapArea>, start: usize, area: MapArea)
    requires
        area.start_vpn == mmap_start_vpn(start),
        ms1 == ms0.push(area),
        ms2 == match first_area_starting_at(ms1, mmap_start_vpn(start) as usize) {
            Some(i) => ms1.remove(i),
            None => ms1,
        },
        forall|k: int| 0 <= k < ms0.len() ==> (#[trigger] ms0[k]).start_vpn != mmap_start_vpn(start),
    ensures
        ms2 == ms0,
{
    let v = mmap_start_vpn(start) as usize;
    assert forall|k: int| 0 <= k < ms0.len() implies (#[trigger] ms1[k]).start_vpn != v by {
        assert(ms1[k] == ms0[k]);
    }
    crate::mm::lemma_first_area_starting_at(ms1, v, ms0.len() as int);
    assert(ms1.remove(ms0.len() as int) =~= ms0);
}

} // verus!
