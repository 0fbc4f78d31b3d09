use rcore_os::config::BIG_STRIDE;
use rcore_os::mm::MemorySet;
use rcore_os::task::id::{KernelStack, RecycleAllocator};
use rcore_os::task::manager::TaskManager;
use rcore_os::task::task::TaskControlBlock;

fn task(pid: usize, stride: usize, pass: usize) -> TaskControlBlock {
    let mut pids = RecycleAllocator::new();
    for _ in 0..pid {
        pids.allocate();
    }
    let mut t = TaskControlBlock::new(MemorySet::new_bare(pid), 0x1000, 0, &mut pids, KernelStack { top: 0 }, 0, 0);
    t.inner.stride = stride;
    t.inner.pass = pass;
    t
}

#[test]
fn new_manager_is_empty() {
    let mut m = TaskManager::new();
    assert_eq!(m.get_big_stride(), BIG_STRIDE);
    assert!(m.fetch().is_none());
}

#[test]
fn fetch_takes_least_stride_and_advances_it() {
    let mut m = TaskManager::new();
    m.add(task(1, 30, 5));
    m.add(task(2, 10, 7));
    m.add(task(3, 20, 1));
    let t = m.fetch().unwrap();
    assert_eq!(t.getpid(), 2);
    assert_eq!(t.get_stride(), 17);
    assert_eq!(m.fetch().unwrap().getpid(), 3);
    assert_eq!(m.fetch().unwrap().getpid(), 1);
    assert!(m.fetch().is_none());
}

#[test]
fn fetch_breaks_ties_by_queue_order() {
    let mut m = TaskManager::new();
    m.add(task(1, 8, 1));
    m.add(task(2, 4, 1));
    m.add(task(3, 4, 1));
    assert_eq!(m.fetch().unwrap().getpid(), 2);
    assert_eq!(m.fetch().unwrap().getpid(), 3);
}

#[test]
fn add_then_fetch_returns_added_task() {
    let mut m = TaskManager::new();
    m.add(task(5, 0, 3));
    let t = m.fetch().unwrap();
    assert_eq!(t.getpid(), 5);
    assert_eq!(t.get_stride(), 3);
}

#[test]
fn stride_scheduling_runs_higher_priority_more_often() {
    // priorities 2 and 4: the second runs twice as often
    let mut a = task(1, 0, 0);
    let mut b = task(2, 0, 0);
    a.set_priority(BIG_STRIDE, 2);
    b.set_priority(BIG_STRIDE, 4);
    let mut m = TaskManager::new();
    m.add(a);
    m.add(b);
    let mut runs = [0usize; 3];
    for _ in 0..12 {
        let t = m.fetch().unwrap();
        runs[t.getpid()] += 1;
        m.add(t);
    }
    assert_eq!(runs[1], 4);
    assert_eq!(runs[2], 8);
}

#[test]
fn higher_priority_never_gets_longer_pass() {
    let mut prev = usize::MAX;
    for prio in 2..40 {
        let mut t = task(1, 0, 0);
        assert_eq!(t.set_priority(BIG_STRIDE, prio), prio);
        assert!(t.inner.pass <= prev);
        assert_eq!(t.inner.pass, BIG_STRIDE / prio as usize);
        prev = t.inner.pass;
    }
}

#[test]
fn next_stride_fits_looks_at_the_task_fetch_takes() {
    let mut m = TaskManager::new();
    assert!(m.next_stride_fits());
    m.add(task(1, 10, usize::MAX));
    m.add(task(2, 5, 1));
    assert!(m.next_stride_fits());
    let t = m.fetch().unwrap();
    assert_eq!(t.getpid(), 2);
    assert!(!m.next_stride_fits());
}
