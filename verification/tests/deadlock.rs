use std::collections::BTreeMap;
use rcore_os::mm::MemorySet;
use rcore_os::task::id::{KernelStack, RecycleAllocator};
use rcore_os::task::manager::TaskManager;
use rcore_os::task::process::ProcessControlBlock;

fn process() -> ProcessControlBlock {
    let mut pids = RecycleAllocator::new();
    let mut pid2process = BTreeMap::new();
    let mut ready_queue = TaskManager::new();
    ProcessControlBlock::new(
        MemorySet::new_bare(7),
        0x1_0000,
        0x1000,
        &mut pids,
        KernelStack { top: 0x8000 },
        1,
        2,
        &mut pid2process,
        &mut ready_queue,
    )
}

#[test]
fn banker_textbook_safe_state() {
    // Five threads, three resource kinds: the classic safe example.
    let p = process();
    let available = vec![3, 3, 2];
    let allocation = vec![vec![0, 1, 0], vec![2, 0, 0], vec![3, 0, 2], vec![2, 1, 1], vec![0, 0, 2]];
    let need = vec![vec![7, 4, 3], vec![1, 2, 2], vec![6, 0, 0], vec![0, 1, 1], vec![4, 3, 1]];
    assert!(p.is_safe(available, allocation, need));
}

#[test]
fn banker_textbook_unsafe_state() {
    let p = process();
    let available = vec![0, 0, 0];
    let allocation = vec![vec![0, 1, 0], vec![2, 0, 0], vec![3, 0, 2]];
    let need = vec![vec![1, 0, 0], vec![0, 0, 1], vec![1, 1, 1]];
    assert!(!p.is_safe(available, allocation, need));
}

#[test]
fn banker_two_threads_one_mutex_deadlock() {
    // Each thread holds one lock and waits for the other's.
    let p = process();
    let available = vec![0, 0];
    let allocation = vec![vec![1, 0], vec![0, 1]];
    let need = vec![vec![0, 1], vec![1, 0]];
    assert!(!p.is_safe(available, allocation, need));
}

#[test]
fn banker_order_matters_only_through_release() {
    // Thread 1 can only run after thread 0 releases its unit.
    let p = process();
    let available = vec![1];
    let allocation = vec![vec![1], vec![0]];
    let need = vec![vec![1], vec![2]];
    assert!(p.is_safe(available, allocation, need));
}

#[test]
fn banker_no_threads_is_safe() {
    let p = process();
    assert!(p.is_safe(vec![0], vec![], vec![]));
}

#[test]
fn mutex_is_safe_reads_process_tables() {
    let mut p = process();
    p.inner.mutex_available = vec![0];
    p.update_matrix();
    p.update_matrix();
    // two threads holding and wanting nothing: safe
    assert!(p.mutex_is_safe());
    p.inner.mutex_allocation = vec![vec![1], vec![0]];
    p.inner.mutex_need = vec![vec![0], vec![1]];
    assert!(p.mutex_is_safe());
    p.inner.mutex_allocation = vec![vec![0], vec![0]];
    p.inner.mutex_need = vec![vec![1], vec![1]];
    assert!(!p.mutex_is_safe());
}

#[test]
fn update_matrix_adds_a_zero_per_resource_kind() {
    let mut p = process();
    p.inner.mutex_available = vec![1, 1, 0];
    p.inner.sem_available = vec![4];
    p.update_matrix();
    assert_eq!(p.inner.mutex_allocation, vec![vec![0, 0, 0]]);
    assert_eq!(p.inner.mutex_need, vec![vec![0, 0, 0]]);
    assert_eq!(p.inner.sem_allocation, vec![vec![0]]);
    assert_eq!(p.inner.sem_need, vec![vec![0]]);
    p.inner.mutex_need[0] = vec![1, 0, 0];
    p.update_matrix();
    assert_eq!(p.inner.mutex_need, vec![vec![1, 0, 0], vec![0, 0, 0]]);
    assert_eq!(p.inner.mutex_available, vec![1, 1, 0]);
    assert!(p.mutex_is_safe());
    assert!(p.sem_is_safe());
}

#[test]
fn sem_is_safe_reads_process_tables() {
    let mut p = process();
    p.inner.sem_available = vec![2, 0];
    p.inner.sem_allocation = vec![vec![0, 1]];
    p.inner.sem_need = vec![vec![2, 0]];
    assert!(p.sem_is_safe());
    p.inner.sem_need = vec![vec![3, 0]];
    assert!(!p.sem_is_safe());
}

#[test]
fn update_need_up_then_down_restores() {
    let mut p = process();
    p.update_matrix();
    p.inner.mutex_need[0] = vec![5, 6];
    p.update_mutex_need(0, 1, 0);
    assert_eq!(p.inner.mutex_need[0], vec![5, 7]);
    p.update_mutex_need(0, 1, 1);
    assert_eq!(p.inner.mutex_need[0], vec![5, 6]);
}

#[test]
fn update_allocation_and_available() {
    let mut p = process();
    p.update_matrix();
    p.inner.mutex_allocation[0] = vec![0];
    p.inner.sem_allocation[0] = vec![0];
    p.inner.sem_need[0] = vec![2];
    p.inner.mutex_available = vec![1];
    p.inner.sem_available = vec![3];
    p.update_mutex_allocation(0, 0, 0);
    p.update_mutex_available(0, 1);
    p.update_sem_allocation(0, 0, 0);
    p.update_sem_available(0, 1);
    p.update_sem_need(0, 0, 1);
    assert_eq!(p.inner.mutex_allocation[0], vec![1]);
    assert_eq!(p.inner.mutex_available, vec![0]);
    assert_eq!(p.inner.sem_allocation[0], vec![1]);
    assert_eq!(p.inner.sem_available, vec![2]);
    assert_eq!(p.inner.sem_need[0], vec![1]);
}

#[test]
fn update_flag_sets_detection() {
    let mut p = process();
    assert!(!p.inner.flag);
    p.update_flag(true);
    assert!(p.inner.flag);
    p.update_flag(false);
    assert!(!p.inner.flag);
}

#[test]
fn banker_answer_ignores_thread_order() {
    let p = process();
    let available = vec![3, 3, 2];
    let allocation = vec![vec![0, 1, 0], vec![2, 0, 0], vec![3, 0, 2], vec![2, 1, 1], vec![0, 0, 2]];
    let need = vec![vec![7, 4, 3], vec![1, 2, 2], vec![6, 0, 0], vec![0, 1, 1], vec![4, 3, 1]];
    let order = [4, 2, 0, 3, 1];
    let allocation2: Vec<Vec<isize>> = order.iter().map(|&k| allocation[k].clone()).collect();
    let need2: Vec<Vec<isize>> = order.iter().map(|&k| need[k].clone()).collect();
    assert!(p.is_safe(available.clone(), allocation, need));
    assert!(p.is_safe(available, allocation2, need2));
    let unsafe_alloc = vec![vec![1, 0], vec![0, 1]];
    let unsafe_need = vec![vec![0, 1], vec![1, 0]];
    assert!(!p.is_safe(vec![0, 0], unsafe_alloc.clone(), unsafe_need.clone()));
    let swapped_alloc = vec![unsafe_alloc[1].clone(), unsafe_alloc[0].clone()];
    let swapped_need = vec![unsafe_need[1].clone(), unsafe_need[0].clone()];
    assert!(!p.is_safe(vec![0, 0], swapped_alloc, swapped_need));
}

#[test]
fn granting_a_unit_moves_it_from_need_to_allocation() {
    let mut p = process();
    p.inner.mutex_available = vec![0, 0];
    p.update_matrix();
    p.inner.mutex_need[0] = vec![0, 2];
    p.update_mutex_allocation(0, 1, 0);
    p.update_mutex_need(0, 1, 1);
    assert_eq!(p.inner.mutex_allocation[0], vec![0, 1]);
    assert_eq!(p.inner.mutex_need[0], vec![0, 1]);
    assert_eq!(p.inner.mutex_allocation[0][1] + p.inner.mutex_need[0][1], 2);
}
