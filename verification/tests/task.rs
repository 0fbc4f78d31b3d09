use rcore_os::config::{BIG_STRIDE, PAGE_SIZE};
use rcore_os::mm::{MapArea, MemorySet, VirtPageNum};
use rcore_os::task::id::{KernelStack, RecycleAllocator};
use rcore_os::task::task::{TaskControlBlock, TaskStatus};

const HEAP: usize = 0x8000;

/// A pid allocator that has handed out `0..n`.
fn pids_from(n: usize) -> RecycleAllocator {
    let mut a = RecycleAllocator::new();
    for _ in 0..n {
        a.allocate();
    }
    a
}

fn task_with_heap() -> TaskControlBlock {
    // program area [1, 4) and an empty heap area starting at the heap bottom's page
    let areas = vec![
        MapArea { start_vpn: 1, end_vpn: 4, perm: 0x1a },
        MapArea { start_vpn: HEAP / PAGE_SIZE, end_vpn: HEAP / PAGE_SIZE, perm: 0x16 },
    ];
    TaskControlBlock::new(MemorySet::from_areas(5, areas), HEAP, 0x1000, &mut pids_from(2), KernelStack { top: 0x9_0000 }, 11, 12)
}

#[test]
fn new_task_is_ready_with_default_priority() {
    let t = task_with_heap();
    assert_eq!(t.getpid(), 2);
    assert_eq!(t.get_user_token(), 5);
    assert_eq!(t.inner.task_status, TaskStatus::Ready);
    assert!(!t.inner.is_zombie());
    assert_eq!(t.inner.get_status(), TaskStatus::Ready);
    assert_eq!(t.inner.priority, 16);
    assert_eq!(t.get_stride(), 0);
    assert_eq!(t.inner.heap_bottom, HEAP);
    assert_eq!(t.inner.program_brk, HEAP);
    assert_eq!(t.inner.trap_cx.x[2], HEAP);
}

#[test]
fn program_break_moves_and_round_trips() {
    let mut t = task_with_heap();
    assert_eq!(t.change_program_brk(100), Some(HEAP));
    assert_eq!(t.inner.program_brk, HEAP + 100);
    assert!(t.inner.memory_set.translate(VirtPageNum(HEAP / PAGE_SIZE)).is_some());
    assert_eq!(t.change_program_brk(-100), Some(HEAP + 100));
    assert_eq!(t.inner.program_brk, HEAP);
    assert!(t.inner.memory_set.translate(VirtPageNum(HEAP / PAGE_SIZE)).is_none());
}

#[test]
fn program_break_cannot_go_below_heap_bottom() {
    let mut t = task_with_heap();
    assert_eq!(t.change_program_brk(-1), None);
    assert_eq!(t.inner.program_brk, HEAP);
}

#[test]
fn program_break_needs_heap_area() {
    let mut t = TaskControlBlock::new(MemorySet::new_bare(5), HEAP, 0, &mut pids_from(2), KernelStack { top: 0 }, 0, 0);
    assert_eq!(t.change_program_brk(10), None);
    assert_eq!(t.inner.program_brk, HEAP);
}

#[test]
fn mmap_checks_alignment_protection_and_overlap() {
    let mut t = task_with_heap();
    assert_eq!(t.mmap(0x10_0001, 4096, 3), -1);
    assert_eq!(t.mmap(0x10_0000, 4096, 8), -1);
    assert_eq!(t.mmap(0x10_0000, 4096, 0), -1);
    assert_eq!(t.mmap(0x10_0001, 0, 3), -1);
    assert_eq!(t.mmap(0x10_0000, 0, 0), 0);
    assert_eq!(t.mmap(0x2000, 4096, 1), -1); // page 2 is mapped
    assert_eq!(t.mmap(0x10_0000, 4097, 3), 0);
    assert!(t.inner.memory_set.translate(VirtPageNum(0x100)).is_some());
    assert!(t.inner.memory_set.translate(VirtPageNum(0x101)).is_some());
    assert!(t.inner.memory_set.translate(VirtPageNum(0x102)).is_none());
    assert_eq!(t.mmap(0x10_1000, 10, 3), -1);
}

#[test]
fn mmap_permission_bits() {
    let mut t = task_with_heap();
    assert_eq!(t.mmap(0x20_0000, 4096, 7), 0);
    let pte = t.inner.memory_set.translate(VirtPageNum(0x200)).unwrap();
    // U | R | W | X, plus the valid bit
    assert_eq!(pte.bits, 0x10 | 0x2 | 0x4 | 0x8 | 0x1);
    assert!(pte.is_valid());
}

#[test]
fn munmap_removes_area_started_by_mmap() {
    let mut t = task_with_heap();
    assert_eq!(t.mmap(0x10_0000, 8192, 3), 0);
    assert_eq!(t.munmap(0x10_0001, 8192), -1);
    assert!(t.inner.memory_set.translate(VirtPageNum(0x100)).is_some());
    assert_eq!(t.munmap(0x10_0000, 0), 0);
    assert!(t.inner.memory_set.translate(VirtPageNum(0x100)).is_some());
    assert_eq!(t.munmap(0x10_0000, 8192), 0);
    assert!(t.inner.memory_set.translate(VirtPageNum(0x100)).is_none());
    assert!(t.inner.memory_set.translate(VirtPageNum(0x101)).is_none());
    assert!(t.inner.memory_set.translate(VirtPageNum(2)).is_some());
}

#[test]
fn set_priority_sets_pass() {
    let mut t = task_with_heap();
    assert_eq!(t.set_priority(BIG_STRIDE, 1), -1);
    assert_eq!(t.inner.priority, 16);
    assert_eq!(t.set_priority(BIG_STRIDE, 4), 4);
    assert_eq!(t.inner.priority, 4);
    assert_eq!(t.inner.pass, BIG_STRIDE / 4);
    t.update_stride();
    t.update_stride();
    assert_eq!(t.get_stride(), 2 * (BIG_STRIDE / 4));
}

#[test]
fn fork_child_inherits_state() {
    let mut t = task_with_heap();
    t.set_priority(100, 5);
    t.update_stride();
    assert_eq!(t.change_program_brk(64), Some(HEAP));
    let child = t.fork(&mut pids_from(9), KernelStack { top: 0x7_0000 }, 6);
    assert_eq!(child.getpid(), 9);
    assert_eq!(t.inner.children, vec![9]);
    assert_eq!(child.inner.parent, Some(2));
    assert_eq!(child.inner.task_status, TaskStatus::Ready);
    assert_eq!(child.inner.program_brk, HEAP + 64);
    assert_eq!(child.inner.heap_bottom, HEAP);
    assert_eq!(child.get_stride(), 20);
    assert_eq!(child.inner.pass, 20);
    assert_eq!(child.inner.priority, 5);
    assert_eq!(child.get_user_token(), 6);
    assert_eq!(child.inner.trap_cx.kernel_sp, 0x7_0000);
    assert_eq!(child.inner.trap_cx.sepc, t.inner.trap_cx.sepc);
    assert!(child.inner.memory_set.translate(VirtPageNum(2)).is_some());
}

#[test]
fn fork_takes_a_fresh_pid() {
    let mut pids = RecycleAllocator::new();
    let mut parent = TaskControlBlock::new(MemorySet::new_bare(1), HEAP, 0, &mut pids, KernelStack { top: 0 }, 0, 0);
    assert_eq!(parent.getpid(), 0);
    let first = parent.fork(&mut pids, KernelStack { top: 0 }, 2);
    assert_eq!(first.getpid(), 1);
    // a given-back pid is handed out again, never the parent's
    pids.deallocate(1);
    let second = parent.fork(&mut pids, KernelStack { top: 0 }, 3);
    assert_eq!(second.getpid(), 1);
    let third = parent.fork(&mut pids, KernelStack { top: 0 }, 4);
    assert_eq!(third.getpid(), 2);
    assert_eq!(parent.inner.children, vec![1, 1, 2]);
}

#[test]
fn exec_replaces_program() {
    let mut t = task_with_heap();
    t.exec(MemorySet::new_bare(8), 0x5000, 0x2000, 31, 32);
    assert_eq!(t.get_user_token(), 8);
    assert_eq!(t.inner.base_size, 0x5000);
    assert_eq!(t.inner.trap_cx.sepc, 0x2000);
    assert_eq!(t.inner.trap_cx.x[2], 0x5000);
    assert_eq!(t.inner.trap_cx.kernel_sp, 0x9_0000);
    assert!(t.inner.memory_set.translate(VirtPageNum(2)).is_none());
}

#[test]
fn trap_context_is_reachable_for_update() {
    let mut t = task_with_heap();
    t.inner_exclusive_access().get_trap_cx().x[10] = 42;
    assert_eq!(t.inner.trap_cx.x[10], 42);
}

#[test]
fn program_break_shrink_then_grow_round_trips() {
    let mut t = task_with_heap();
    assert_eq!(t.change_program_brk(8192), Some(HEAP));
    assert_eq!(t.change_program_brk(-4096), Some(HEAP + 8192));
    assert_eq!(t.change_program_brk(4096), Some(HEAP + 4096));
    assert_eq!(t.inner.program_brk, HEAP + 8192);
    assert!(t.inner.memory_set.translate(VirtPageNum(HEAP / PAGE_SIZE + 1)).is_some());
}

