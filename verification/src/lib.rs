//! The task-management core of a small teaching kernel: tasks and
//! processes, their scheduling, their address spaces, and deadlock
//! detection over their resources.
use vstd::prelude::*;

pub mod config;
pub mod mm;
pub mod trap;
pub mod syscall;
pub mod task;

verus! {

} // verus!
