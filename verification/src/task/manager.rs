//! The ready queue with stride scheduling.
use vstd::prelude::*;
use std::collections::VecDeque;
use crate::config::BIG_STRIDE;
use crate::task::task::{TaskControlBlock, same_but_scheduling, same_task};

verus! {

/// `i` is the first position of `q` whose task has the least stride.
pub open spec fn is_first_min(q: Seq<TaskControlBlock>, i: int) -> bool {
    &&& 0 <= i < q.len()
    &&& forall|k: int| 0 <= k < q.len() ==> q[i].inner.stride <= (#[trigger] q[k]).inner.stride
    &&& forall|k: int| 0 <= k < i ==> q[i].inner.stride < (#[trigger] q[k]).inner.stride
}

/// `t` is task `s` after its stride advanced by its pass.
pub open spec fn advanced(s: TaskControlBlock, t: TaskControlBlock) -> bool {
    &&& t.pid == s.pid
    &&& t.kernel_stack == s.kernel_stack
    &&& same_but_scheduling(&t.inner, &s.inner)
    &&& t.inner.stride == s.inner.stride + s.inner.pass
    &&& t.inner.pass == s.inner.pass
    &&& t.inner.priority == s.inner.priority
}

/// `b` is the ready queue `a` with a copy of `task` (see `same_task`) added
/// at the back.
pub open spec fn enqueued(a: &TaskManager, b: &TaskManager, task: TaskControlBlock) -> bool {
    &&& b@ == a@.push(b@.last())
    &&& same_task(b@.last(), task)
    &&& b.big_stride_spec() == a.big_stride_spec()
}

/// The ready queue of tasks, scheduled by stride.
pub struct TaskManager {
    ready_queue: VecDeque<TaskControlBlock>,
    big_stride: usize,
}

impl View for TaskManager {
    type V = Seq<TaskControlBlock>;

    closed spec fn view(&self) -> Seq<TaskControlBlock> {
        self.ready_queue@
    }
}

impl TaskManager {
    /// The stride budget of this manager.
    pub closed spec fn big_stride_spec(&self) -> usize {
        self.big_stride
    }

    /// An empty ready queue.
    pub fn new() -> (tm: Self)
        ensures
            tm@ == Seq::<TaskControlBlock>::empty(),
            tm.big_stride_spec() == BIG_STRIDE,
    {
        TaskManager { ready_queue: VecDeque::new(), big_stride: BIG_STRIDE }
    }

    /// Puts a task at the back of the ready queue.
    pub fn add(&mut self, task: TaskControlBlock)
        ensures
            final(self)@ == old(self)@.push(task),
            final(self).big_stride_spec() == old(self).big_stride_spec(),
    {
        self.ready_queue.push_back(task);
    }

    /// Takes out the first task with the least stride, after advancing its
    /// stride by its pass; `None` when the queue is empty.
    pub fn fetch(&mut self) -> (task: Option<TaskControlBlock>)
        requires
            forall|i: int| is_first_min(old(self)@, i) ==> old(self)@[i].inner.stride + old(self)@[i].inner.pass <= usize::MAX,
        ensures
            final(self).big_stride_spec() == old(self).big_stride_spec(),
            old(self)@.len() == 0 ==> task.is_none() && final(self)@ == old(self)@,
            old(self)@.len() > 0 ==> exists|i: int|
                #![trigger is_first_min(old(self)@, i)]
                is_first_min(old(self)@, i) && final(self)@ == old(self)@.remove(i) && task.is_some()
                    && advanced(old(self)@[i], task.unwrap()),
    {
        match self.first_min_index() {
            Some(min_index) => {
                let removed = self.ready_queue.remove(min_index);
                match removed {
                    Some(mut result_tcb) => {
                        result_tcb.update_stride();
                        Some(result_tcb)
                    },
                    None => None,
                }
            },
            None => None,
        }
    }

    /// Whether the stride of the task `fetch` would take out can advance
    /// by its pass without overflow (true when the queue is empty).
    pub fn next_stride_fits(&self) -> (fits: bool)
        ensures
            fits == forall|i: int| is_first_min(self@, i) ==> self@[i].inner.stride + self@[i].inner.pass <= usize::MAX,
    {
        match self.first_min_index() {
            Some(i) => {
                let t = &self.ready_queue[i];
                proof {
                    assert forall|k: int| is_first_min(self@, k) implies k == i by {
                        lemma_first_min_unique(self@, k, i as int);
                    }
                }
                t.inner.pass <= usize::MAX - t.inner.stride
            },
            None => true,
        }
    }

    /// The first position whose task has the least stride; `None` when the
    /// queue is empty.
    fn first_min_index(&self) -> (idx: Option<usize>)
        ensures
            match idx {
                Some(i) => is_first_min(self@, i as int),
                None => self@.len() == 0,
            },
    {
        let n = self.ready_queue.len();
        if n == 0 {
            return None;
        }
        let mut min_index: usize = 0;
        let mut i: usize = 1;
        while i < n
            invariant
                n == self.ready_queue@.len(),
                0 < i <= n,
                0 <= min_index < i,
                forall|k: int| 0 <= k < i ==> self.ready_queue@[min_index as int].inner.stride <= (#[trigger] self.ready_queue@[k]).inner.stride,
                forall|k: int| 0 <= k < min_index ==> self.ready_queue@[min_index as int].inner.stride < (#[trigger] self.ready_queue@[k]).inner.stride,
            decreases n - i,
        {
            if self.ready_queue[i].get_stride() < self.ready_queue[min_index].get_stride() {
                min_index = i;
            }
            i = i + 1;
        }
        proof {
            assert(is_first_min(self.ready_queue@, min_index as int));
        }
        Some(min_index)
    }

    /// The stride budget of this manager.
    pub fn get_big_stride(&self) -> (big_stride: usize)
        ensures
            big_stride == self.big_stride_spec(),
    {
        self.big_stride
    }
}

/// At most one position is the first with the least stride.
pub proof fn lemma_first_min_unique(q: Seq<TaskControlBlock>, i: int, j: int)
    requires
        is_first_min(q, i),
        is_first_min(q, j),
    ensures
        i == j,
{
    if i < j {
        assert(q[j].inner.stride < q[i].inner.stride);
    }
    if j < i {
        assert(q[i].inner.stride < q[j].inner.stride);
    }
}

/// A task added behind tasks that all have a larger stride is the next one
/// fetched, and fetching it leaves the queue as it was before the add.
pub proof fn lemma_smallest_stride_fetched_next(q: Seq<TaskControlBlock>, t: TaskControlBlock)
    requires
        forall|k: int| 0 <= k < q.len() ==> t.inner.stride < (#[trigger] q[k]).inner.stride,
    ensures
        forall|i: int| #[trigger] is_first_min(q.push(t), i) <==> i == q.len(),
        q.push(t).remove(q.len() as int) == q,
{
    let q2 = q.push(t);
    assert(is_first_min(q2, q.len() as int)) by {
        assert forall|k: int| 0 <= k < q2.len() implies q2[q.len() as int].inner.stride <= (#[trigger] q2[k]).inner.stride by {
            if k < q.len() {
                assert(q2[k] == q[k]);
            }
        }
        assert forall|k: int| 0 <= k < q.len() implies q2[q.len() as int].inner.stride < (#[trigger] q2[k]).inner.stride by {
            assert(q2[k] == q[k]);
        }
    }
    assert forall|i: int| #[trigger] is_first_min(q2, i) <==> i == q.len() by {
        if is_first_min(q2, i) {
            lemma_first_min_unique(q2, i, q.len() as int);
        }
    }
    assert(q2.remove(q.len() as int) =~= q);
}

/// A higher priority never gives a longer pass: for priorities
/// `2 <= p1 <= p2`, `big_stride / p2 <= big_stride / p1`.
pub proof fn lemma_pass_antitone(big_stride: usize, p1: usize, p2: usize)
    requires
        2 <= p1 <= p2,
    ensures
        big_stride / p2 <= big_stride / p1,
{
    vstd::arithmetic::div_mod::lemma_div_is_ordered_by_denominator(big_stride as int, p1 as int, p2 as int);
}

} // verus!
