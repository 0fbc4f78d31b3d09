use rcore_os::mm::{MapArea, MemorySet, VirtPageNum};
use rcore_os::task::id::{KernelStack, RecycleAllocator};
use rcore_os::task::task::{TaskControlBlock, TaskStatus};
use rcore_os::task::{
    change_program_brk, current_trap_cx, current_user_token, delete_mmap, exit_current_and_run_next,
    get_syscall_count, insert_mmap, record_syscall_count, run_first_task, suspend_current_and_run_next,
    TaskManager,
};

fn app(i: usize, pids: &mut RecycleAllocator) -> TaskControlBlock {
    let heap = 0x8000;
    let areas = vec![MapArea { start_vpn: heap / 4096, end_vpn: heap / 4096, perm: 0x16 }];
    TaskControlBlock::new(MemorySet::from_areas(100 + i, areas), heap, 0x1000 * i, pids, KernelStack { top: 0x10_0000 * (i + 1) }, 1, 2)
}

fn manager(n: usize) -> TaskManager {
    let mut tasks = Vec::new();
    let mut pids = RecycleAllocator::new();
    for i in 0..n {
        tasks.push(app(i, &mut pids));
    }
    TaskManager::new(tasks)
}

fn statuses(tm: &TaskManager) -> Vec<TaskStatus> {
    tm.inner.tasks.iter().map(|t| t.inner.task_status).collect()
}

#[test]
fn first_task_runs_first() {
    let mut tm = manager(3);
    run_first_task(&mut tm);
    assert_eq!(statuses(&tm), vec![TaskStatus::Running, TaskStatus::Ready, TaskStatus::Ready]);
    assert_eq!(tm.inner.current_task, 0);
    assert_eq!(current_user_token(&tm), 100);
}

#[test]
fn find_next_task_goes_round_robin() {
    let mut tm = manager(4);
    tm.run_first_task();
    tm.inner.current_task = 2;
    tm.inner.tasks[3].inner.task_status = TaskStatus::Zombie;
    // task 3 has exited and task 0 is running: task 1 comes next
    assert_eq!(tm.find_next_task(), Some(1));
    tm.inner.tasks[1].inner.task_status = TaskStatus::Zombie;
    // the round wraps around to the current task itself
    assert_eq!(tm.find_next_task(), Some(2));
    tm.inner.tasks[2].inner.task_status = TaskStatus::Running;
    assert_eq!(tm.find_next_task(), None);
    tm.inner.tasks[0].inner.task_status = TaskStatus::Ready;
    assert_eq!(tm.find_next_task(), Some(0));
}

#[test]
fn yield_switches_to_next_ready_task() {
    let mut tm = manager(3);
    run_first_task(&mut tm);
    assert_eq!(suspend_current_and_run_next(&mut tm), (0, 1));
    assert_eq!(statuses(&tm), vec![TaskStatus::Ready, TaskStatus::Running, TaskStatus::Ready]);
    assert_eq!(tm.inner.current_task, 1);
    assert_eq!(current_user_token(&tm), 101);
}

#[test]
fn yield_with_single_task_resumes_it() {
    let mut tm = manager(1);
    run_first_task(&mut tm);
    assert_eq!(suspend_current_and_run_next(&mut tm), (0, 0));
    assert_eq!(statuses(&tm), vec![TaskStatus::Running]);
}

#[test]
fn exit_never_returns_to_exited_task() {
    let mut tm = manager(3);
    run_first_task(&mut tm);
    assert_eq!(exit_current_and_run_next(&mut tm, 1), (0, 1));
    assert_eq!(statuses(&tm), vec![TaskStatus::Zombie, TaskStatus::Running, TaskStatus::Ready]);
    assert_eq!(exit_current_and_run_next(&mut tm, 2), (1, 2));
    assert_eq!(statuses(&tm), vec![TaskStatus::Zombie, TaskStatus::Zombie, TaskStatus::Running]);
    assert_eq!(tm.inner.tasks[0].inner.exit_code, 1);
    assert_eq!(tm.inner.tasks[1].inner.exit_code, 2);
}

#[test]
fn syscall_counts_are_per_task() {
    let mut tm = manager(2);
    run_first_task(&mut tm);
    record_syscall_count(&mut tm, 64);
    record_syscall_count(&mut tm, 64);
    record_syscall_count(&mut tm, 93);
    assert_eq!(get_syscall_count(&tm, 64), 2);
    assert_eq!(get_syscall_count(&tm, 93), 1);
    assert_eq!(get_syscall_count(&tm, 0), 0);
    suspend_current_and_run_next(&mut tm);
    assert_eq!(get_syscall_count(&tm, 64), 0);
    record_syscall_count(&mut tm, 64);
    assert_eq!(get_syscall_count(&tm, 64), 1);
}

#[test]
fn mmap_and_munmap_on_current_task() {
    let mut tm = manager(2);
    run_first_task(&mut tm);
    assert_eq!(insert_mmap(&mut tm, 0x1_0001, 10, 1), -1);
    assert_eq!(insert_mmap(&mut tm, 0x1_0000, 10, 0x8), -1);
    assert_eq!(insert_mmap(&mut tm, 0x1_0000, 10, 0), -1);
    assert_eq!(insert_mmap(&mut tm, 0x1_0000, 0x2000, 3), 0);
    let ms = &tm.inner.tasks[0].inner.memory_set;
    assert!(ms.translate(VirtPageNum(0x10)).is_some());
    assert!(ms.translate(VirtPageNum(0x11)).is_some());
    assert!(ms.translate(VirtPageNum(0x12)).is_none());
    assert_eq!(insert_mmap(&mut tm, 0x1_1000, 0x1000, 3), -1);
    assert_eq!(delete_mmap(&mut tm, 0x1_1000, 0x2000), -1);
    assert_eq!(delete_mmap(&mut tm, 0x1_1000, 0x1000), 0);
    let ms = &tm.inner.tasks[0].inner.memory_set;
    assert!(ms.translate(VirtPageNum(0x10)).is_some());
    assert!(ms.translate(VirtPageNum(0x11)).is_none());
    assert_eq!(delete_mmap(&mut tm, 0x1_0000, 0x1000), 0);
    assert!(tm.inner.tasks[0].inner.memory_set.translate(VirtPageNum(0x10)).is_none());
    // the other task is untouched
    assert!(tm.inner.tasks[1].inner.memory_set.translate(VirtPageNum(0x10)).is_none());
}

#[test]
fn program_break_of_current_task() {
    let mut tm = manager(2);
    run_first_task(&mut tm);
    assert_eq!(change_program_brk(&mut tm, 4096), Some(0x8000));
    assert_eq!(change_program_brk(&mut tm, -4096), Some(0x9000));
    assert_eq!(change_program_brk(&mut tm, -1), None);
    assert_eq!(tm.inner.tasks[1].inner.program_brk, 0x8000);
}

#[test]
fn current_trap_cx_is_the_running_tasks() {
    let mut tm = manager(2);
    run_first_task(&mut tm);
    suspend_current_and_run_next(&mut tm);
    current_trap_cx(&mut tm).x[10] = 5;
    assert_eq!(tm.inner.tasks[1].inner.trap_cx.x[10], 5);
    assert_eq!(tm.inner.tasks[0].inner.trap_cx.x[10], 0);
    assert_eq!(tm.get_current_token(), 101);
}
