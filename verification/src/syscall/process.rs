//! Process-management system calls.
use vstd::prelude::*;
use crate::config::{MAX_APP_NUM, MAX_SYSCALL_NUM};
use crate::task::{
    TaskManager, change_program_brk, exit_current_and_run_next, exited_then_switched, get_syscall_count,
    insert_mmap, mmap_result, other_ready, suspended_then_switched, suspend_current_and_run_next,
};
use crate::task::task::{brk_changed, brk_fits};

verus! {

/// A time value: seconds and microseconds.
#[derive(Clone, Copy, Debug, PartialEq, Eq, Structural)]
pub struct TimeVal {
    pub sec: usize,
    pub usec: usize,
}

/// Exits the running task with `exit_code` and switches to the next ready
/// task; returns the switch to perform. Another task must be ready: when
/// none is, every application has completed and the kernel stops.
pub fn sys_exit(tm: &mut TaskManager, exit_code: i32) -> (switch: (usize, usize))
    requires
        old(tm).wf(),
        old(tm).num_app > 0,
        other_ready(old(tm).inner.tasks@, old(tm).inner.current_task as int),
    ensures
        final(tm).wf(),
        final(tm).inner.syscall_counters@ == old(tm).inner.syscall_counters@,
        exited_then_switched(old(tm), final(tm), exit_code, switch),
{
    exit_current_and_run_next(tm, exit_code)
}

/// The running task gives up the processor: it is suspended and the next
/// ready task is switched to. Returns 0 and the switch to perform.
pub fn sys_yield(tm: &mut TaskManager) -> (r: (isize, (usize, usize)))
    requires
        old(tm).wf(),
        old(tm).num_app > 0,
    ensures
        r.0 == 0,
        final(tm).wf(),
        final(tm).inner.syscall_counters@ == old(tm).inner.syscall_counters@,
        suspended_then_switched(old(tm), final(tm), r.1),
{
    let switch = suspend_current_and_run_next(tm);
    (0, switch)
}

/// Maps `len` bytes at `start` with protection `prot` into the running
/// task's address space (see `TaskManager::mmap`).
pub fn sys_mmap(tm: &mut TaskManager, start: usize, len: usize, prot: usize) -> (r: isize)
    requires
        old(tm).wf(),
        old(tm).num_app > 0,
        start + len <= usize::MAX,
    ensures
        final(tm).wf(),
        mmap_result(old(tm), final(tm), start, len, prot, r),
{
    insert_mmap(tm, start, len, prot)
}

/// Unmapping is not offered: always -1.
pub fn sys_munmap(_start: usize, _len: usize) -> (r: isize)
    ensures
        r == -1,
{
    -1
}

/// Moves the running task's program break by `size` bytes and returns the
/// old break, or -1 when the break cannot move.
pub fn sys_sbrk(tm: &mut TaskManager, size: i32) -> (r: isize)
    requires
        old(tm).wf(),
        old(tm).num_app > 0,
        brk_fits(old(tm).current().inner.program_brk, size),
    ensures
        final(tm).wf(),
        final(tm).inner.current_task == old(tm).inner.current_task,
        forall|k: int| 0 <= k < old(tm).num_app && k != old(tm).inner.current_task ==> #[trigger] final(tm).inner.tasks@[k] == old(tm).inner.tasks@[k],
        exists|old_brk: Option<usize>|
            #![trigger brk_changed(old(tm).current(), final(tm).current(), size, old_brk)]
            brk_changed(old(tm).current(), final(tm).current(), size, old_brk) && r == match old_brk {
                Some(b) => b as isize,
                None => -1isize,
            },
        r == -1 || r == old(tm).current().inner.program_brk as isize,
{
    if let Some(old_brk) = change_program_brk(tm, size) {
        old_brk as isize
    } else {
        -1
    }
}

/// What a trace request asks of the caller: read the byte at a user
/// address, write a byte to a user address, or answer with a value.
#[derive(Clone, Copy, Debug, PartialEq, Eq, Structural)]
pub enum TraceAction {
    /// Return the byte at this user address (or -1 if it cannot be read).
    ReadByte { addr: usize },
    /// Write this byte to this user address and return 0 (or -1 if it cannot be written).
    WriteByte { addr: usize, value: u8 },
    /// Return this value.
    Reply(isize),
}

/// Decides a trace request: 0 reads the user byte at `id`, 1 writes the low
/// byte of `data` to the user address `id`, 2 answers how often the running
/// task made system call `id` (-1 for ids of 512 and above), and any other
/// request is answered with -1.
pub fn sys_trace(tm: &TaskManager, trace_request: usize, id: usize, data: usize) -> (action: TraceAction)
    requires
        tm.wf(),
        trace_request == 2 && id < 512 ==> tm.inner.current_task < MAX_APP_NUM && id < MAX_SYSCALL_NUM,
    ensures
        trace_request == 0 ==> action == (TraceAction::ReadByte { addr: id }),
        trace_request == 1 ==> action == (TraceAction::WriteByte { addr: id, value: (data % 256) as u8 }),
        trace_request == 2 && id < 512 ==> action == TraceAction::Reply(
            tm.inner.syscall_counters@[tm.inner.current_task as int]@[id as int] as isize,
        ),
        trace_request == 2 && id >= 512 ==> action == TraceAction::Reply(-1isize),
        trace_request > 2 ==> action == TraceAction::Reply(-1isize),
{
    if trace_request == 0 {
        TraceAction::ReadByte { addr: id }
    } else if trace_request == 1 {
        let value = (data & 0xff) as u8;
        assert(data & 0xff == data % 256) by (bit_vector);
        TraceAction::WriteByte { addr: id, value }
    } else if trace_request == 2 {
        if id < 512 {
            let count = get_syscall_count(tm, id) as isize;
            TraceAction::Reply(count)
        } else {
            TraceAction::Reply(-1)
        }
    } else {
        TraceAction::Reply(-1)
    }
}

} // verus!
