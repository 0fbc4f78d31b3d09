use rcore_os::mm::{MapArea, MemorySet, VirtPageNum};
use rcore_os::syscall::process::{sys_exit, sys_mmap, sys_munmap, sys_sbrk, sys_trace, sys_yield, TimeVal, TraceAction};
use rcore_os::task::id::{KernelStack, RecycleAllocator};
use rcore_os::task::task::TaskStatus;
use rcore_os::task::task::TaskControlBlock;
use rcore_os::task::{record_syscall_count, run_first_task, TaskManager};

fn manager(n: usize) -> TaskManager {
    let mut tasks = Vec::new();
    let mut pids = RecycleAllocator::new();
    for i in 0..n {
        let areas = vec![MapArea { start_vpn: 8, end_vpn: 8, perm: 0x16 }];
        tasks.push(TaskControlBlock::new(MemorySet::from_areas(i, areas), 0x8000, 0, &mut pids, KernelStack { top: 0 }, 0, 0));
    }
    let mut tm = TaskManager::new(tasks);
    run_first_task(&mut tm);
    tm
}

#[test]
fn sys_yield_returns_zero_and_switches() {
    let mut tm = manager(2);
    assert_eq!(sys_yield(&mut tm), (0, (0, 1)));
    assert_eq!(sys_yield(&mut tm), (0, (1, 0)));
    let mut single = manager(1);
    assert_eq!(sys_yield(&mut single), (0, (0, 0)));
}

#[test]
fn sys_exit_records_code_and_switches() {
    let mut tm = manager(3);
    assert_eq!(sys_exit(&mut tm, 7), (0, 1));
    assert_eq!(tm.inner.tasks[0].inner.exit_code, 7);
    assert_eq!(tm.inner.tasks[0].inner.task_status, TaskStatus::Zombie);
    assert_eq!(tm.inner.tasks[1].inner.task_status, TaskStatus::Running);
    assert_eq!(sys_exit(&mut tm, -3), (1, 2));
    assert_eq!(tm.inner.tasks[1].inner.exit_code, -3);
    assert_eq!(tm.inner.tasks[2].inner.exit_code, 0);
    assert_eq!(tm.inner.current_task, 2);
}

#[test]
fn sys_sbrk_reports_old_break() {
    let mut tm = manager(1);
    assert_eq!(sys_sbrk(&mut tm, 16), 0x8000);
    assert_eq!(sys_sbrk(&mut tm, 0), 0x8010);
    assert_eq!(sys_sbrk(&mut tm, -0x20), -1);
}

#[test]
fn sys_mmap_maps_and_sys_munmap_refuses() {
    let mut tm = manager(1);
    assert_eq!(sys_mmap(&mut tm, 0x20_0000, 0x1000, 2), 0);
    assert!(tm.inner.tasks[0].inner.memory_set.translate(VirtPageNum(0x200)).is_some());
    assert_eq!(sys_mmap(&mut tm, 0x20_0000, 0x1000, 2), -1);
    assert_eq!(sys_munmap(0x20_0000, 0x1000), -1);
}

#[test]
fn sys_trace_requests() {
    let mut tm = manager(1);
    record_syscall_count(&mut tm, 410);
    record_syscall_count(&mut tm, 410);
    assert_eq!(sys_trace(&tm, 0, 0x1234, 0), TraceAction::ReadByte { addr: 0x1234 });
    assert_eq!(sys_trace(&tm, 1, 0x1234, 0x1ff), TraceAction::WriteByte { addr: 0x1234, value: 0xff });
    assert_eq!(sys_trace(&tm, 2, 410, 0), TraceAction::Reply(2));
    assert_eq!(sys_trace(&tm, 2, 64, 0), TraceAction::Reply(0));
    assert_eq!(sys_trace(&tm, 2, 512, 0), TraceAction::Reply(-1));
    assert_eq!(sys_trace(&tm, 3, 0, 0), TraceAction::Reply(-1));
    // the running task may lie beyond the counter table when no counter is read
    let mut many = manager(17);
    many.inner.current_task = 16;
    assert_eq!(sys_trace(&many, 0, 8, 0), TraceAction::ReadByte { addr: 8 });
    assert_eq!(sys_trace(&many, 2, 600, 0), TraceAction::Reply(-1));
}

#[test]
fn time_val_holds_seconds_and_microseconds() {
    let tv = TimeVal { sec: 3, usec: 250 };
    assert_eq!(tv.sec, 3);
    assert_eq!(tv.usec, 250);
}
