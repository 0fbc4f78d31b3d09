use rcore_os::config::{PAGE_SIZE, TRAP_CONTEXT_BASE, USER_STACK_SIZE};
use std::collections::BTreeMap;
use rcore_os::mm::{MapArea, MemorySet};
use rcore_os::task::id::{KernelStack, RecycleAllocator};
use rcore_os::task::manager::TaskManager;
use rcore_os::task::process::{push_args, FileHandle, ProcessControlBlock};
use rcore_os::task::task::{TaskStatus, TaskUserRes};

const USTACK_BASE: usize = 0x10_0000;

/// A pid allocator that has handed out `0..n`.
fn pids_from(n: usize) -> RecycleAllocator {
    let mut a = RecycleAllocator::new();
    for _ in 0..n {
        a.allocate();
    }
    a
}

struct Kernel {
    pids: RecycleAllocator,
    pid2process: BTreeMap<usize, ProcessControlBlock>,
    ready_queue: TaskManager,
}

fn kernel() -> Kernel {
    Kernel { pids: pids_from(3), pid2process: BTreeMap::new(), ready_queue: TaskManager::new() }
}

fn new_process(k: &mut Kernel) -> ProcessControlBlock {
    let areas = vec![MapArea { start_vpn: 0x10, end_vpn: 0x20, perm: 0x1a }];
    ProcessControlBlock::new(
        MemorySet::from_areas(9, areas),
        USTACK_BASE,
        0x1_0000,
        &mut k.pids,
        KernelStack { top: 0xffff_0000 },
        77,
        88,
        &mut k.pid2process,
        &mut k.ready_queue,
    )
}

fn process() -> ProcessControlBlock {
    new_process(&mut kernel())
}

#[test]
fn new_process_has_main_thread_and_std_files() {
    let p = process();
    assert_eq!(p.getpid(), 3);
    assert_eq!(p.inner.get_user_token(), 9);
    assert_eq!(p.inner.thread_count(), 1);
    assert_eq!(p.inner.fd_table, vec![Some(FileHandle::Stdin), Some(FileHandle::Stdout), Some(FileHandle::Stdout)]);
    let t = p.inner.get_task(0);
    let res = t.inner.res.unwrap();
    assert_eq!(res, TaskUserRes { tid: 0, ustack_base: USTACK_BASE });
    assert_eq!(t.inner.task_status, TaskStatus::Ready);
    assert_eq!(t.inner.trap_cx.sepc, 0x1_0000);
    assert_eq!(t.inner.trap_cx.x[2], USTACK_BASE + USER_STACK_SIZE);
    assert_eq!(t.inner.trap_cx.kernel_sp, 0xffff_0000);
    assert_eq!(t.inner.trap_cx.kernel_satp, 77);
    assert_eq!(t.inner.trap_cx.trap_handler, 88);
    // user stack and trap-context page were mapped after the program's areas
    let ms = &p.inner.memory_set;
    assert!(ms.translate(rcore_os::mm::VirtPageNum(USTACK_BASE / PAGE_SIZE)).is_some());
    assert!(ms.translate(rcore_os::mm::VirtPageNum((USTACK_BASE + USER_STACK_SIZE) / PAGE_SIZE - 1)).is_some());
    assert!(ms.translate(rcore_os::mm::VirtPageNum((USTACK_BASE + USER_STACK_SIZE) / PAGE_SIZE)).is_none());
    let trap_vpn = (TRAP_CONTEXT_BASE as u64 & 0x7f_ffff_ffff) as usize / PAGE_SIZE;
    assert!(ms.translate(rcore_os::mm::VirtPageNum(trap_vpn)).is_some());
}

#[test]
fn new_process_is_registered_and_its_main_thread_queued() {
    let mut k = kernel();
    let p = new_process(&mut k);
    assert_eq!(p.getpid(), 3);
    assert_eq!(k.pid2process.len(), 1);
    let registered = k.pid2process.get(&3).unwrap();
    assert_eq!(registered.getpid(), 3);
    assert_eq!(registered.inner.fd_table, p.inner.fd_table);
    assert_eq!(registered.inner.thread_count(), 1);
    assert!(registered.inner.mutex_list.is_empty());
    assert!(registered.inner.semaphore_list.is_empty());
    assert!(registered.inner.condvar_list.is_empty());
    let queued = k.ready_queue.fetch().unwrap();
    assert_eq!(queued.getpid(), 3);
    assert_eq!(queued.inner.res, Some(TaskUserRes { tid: 0, ustack_base: USTACK_BASE }));
    assert!(k.ready_queue.fetch().is_none());
    // the next process gets the next pid
    let q = new_process(&mut k);
    assert_eq!(q.getpid(), 4);
    assert_eq!(k.pid2process.len(), 2);
}

#[test]
fn alloc_fd_takes_lowest_free_slot() {
    let mut p = process();
    assert_eq!(p.inner.alloc_fd(), 3);
    assert_eq!(p.inner.fd_table.len(), 4);
    p.inner.fd_table[1] = None;
    assert_eq!(p.inner.alloc_fd(), 1);
    assert_eq!(p.inner.fd_table.len(), 4);
}

#[test]
fn tids_are_recycled_last_in_first_out() {
    let mut p = process();
    assert_eq!(p.inner.alloc_tid(), 1);
    assert_eq!(p.inner.alloc_tid(), 2);
    p.inner.dealloc_tid(1);
    p.inner.dealloc_tid(2);
    assert_eq!(p.inner.alloc_tid(), 2);
    assert_eq!(p.inner.alloc_tid(), 1);
    assert_eq!(p.inner.alloc_tid(), 3);
}

#[test]
fn find_task_idx_by_tid_finds_slot() {
    let p = process();
    assert_eq!(p.find_task_idx_by_tid(0), Some(0));
    assert_eq!(p.find_task_idx_by_tid(5), None);
}

#[test]
fn fork_copies_address_space_and_files() {
    let mut k = kernel();
    let mut parent = new_process(&mut k);
    k.ready_queue.fetch();
    parent.inner.fd_table.push(None);
    let child = parent.fork(&mut k.pids, 10, KernelStack { top: 0xfffe_0000 }, &mut k.pid2process, &mut k.ready_queue);
    assert_eq!(child.getpid(), 4);
    assert_ne!(child.getpid(), parent.getpid());
    assert_eq!(k.pid2process.get(&4).unwrap().inner.parent, Some(3));
    assert_eq!(k.pid2process.get(&4).unwrap().inner.get_user_token(), 10);
    let queued = k.ready_queue.fetch().unwrap();
    assert_eq!(queued.getpid(), 4);
    assert_eq!(queued.inner.trap_cx.kernel_sp, 0xfffe_0000);
    assert!(child.inner.mutex_list.is_empty());
    assert_eq!(parent.inner.children, vec![4]);
    assert_eq!(child.inner.parent, Some(3));
    assert_eq!(child.inner.fd_table, parent.inner.fd_table);
    assert_eq!(child.inner.get_user_token(), 10);
    assert_eq!(child.inner.thread_count(), 1);
    let t = child.inner.get_task(0);
    assert_eq!(t.inner.res, Some(TaskUserRes { tid: 0, ustack_base: USTACK_BASE }));
    assert_eq!(t.inner.trap_cx.kernel_sp, 0xfffe_0000);
    assert_eq!(t.inner.trap_cx.sepc, parent.inner.get_task(0).inner.trap_cx.sepc);
    assert!(child.inner.memory_set.translate(rcore_os::mm::VirtPageNum(0x15)).is_some());
}

#[test]
fn push_args_lays_out_strings_below_pointer_array() {
    let args = vec![String::from("ls"), String::from("-l")];
    let st = push_args(0x1000, &args);
    // three pointer words below the top
    assert_eq!(st.argv_base, 0x1000 - 3 * 8);
    assert_eq!(st.argv, vec![0x1000 - 24 - 3, 0x1000 - 24 - 6, 0]);
    // lowest string at 0xfe2, rounded down to a word boundary
    assert_eq!(st.user_sp, 0xfe0);
}

#[test]
fn push_args_without_arguments() {
    let st = push_args(0x2000, &vec![]);
    assert_eq!(st.argv_base, 0x2000 - 8);
    assert_eq!(st.argv, vec![0]);
    assert_eq!(st.user_sp, 0x2000 - 8);
}

#[test]
fn exec_restarts_main_thread_with_arguments() {
    let mut p = process();
    let args = vec![String::from("echo"), String::from("hi")];
    let st = p.exec(MemorySet::new_bare(21), 0x20_0000, 0x4000, &args, 77, 88);
    let top = 0x20_0000 + USER_STACK_SIZE;
    assert_eq!(st.argv_base, top - 24);
    assert_eq!(st.argv, vec![top - 24 - 5, top - 24 - 8, 0]);
    let t = p.inner.get_task(0);
    assert_eq!(t.inner.res, Some(TaskUserRes { tid: 0, ustack_base: 0x20_0000 }));
    assert_eq!(t.inner.trap_cx.sepc, 0x4000);
    assert_eq!(t.inner.trap_cx.x[10], 2);
    assert_eq!(t.inner.trap_cx.x[11], st.argv_base);
    assert_eq!(t.inner.trap_cx.x[2], st.user_sp);
    assert_eq!(st.user_sp % 8, 0);
    assert_eq!(p.inner.get_user_token(), 21);
}
