//! Identifier allocation: process ids, kernel stacks and recyclable ids.
use vstd::prelude::*;

verus! {

/// A process identifier.
#[derive(Clone, Copy, Debug, PartialEq, Eq, Structural)]
pub struct PidHandle(pub usize);

/// A task's kernel stack, known by its top address.
#[derive(Clone, Copy, Debug, PartialEq, Eq, Structural)]
pub struct KernelStack {
    pub top: usize,
}

impl KernelStack {
    /// The top address of this kernel stack.
    pub fn get_top(&self) -> (top: usize)
        ensures
            top == self.top,
    {
        self.top
    }
}

/// Hands out the ids `0, 1, 2, ...`, reusing ids that were given back, the
/// most recently returned first.
pub struct RecycleAllocator {
    current: usize,
    recycled: Vec<usize>,
}

impl RecycleAllocator {
    /// One more than the largest id ever handed out.
    pub closed spec fn current_spec(&self) -> usize {
        self.current
    }

    /// Ids that were given back and wait to be reused, oldest first.
    pub closed spec fn recycled_spec(&self) -> Seq<usize> {
        self.recycled@
    }

    /// Whether `id` is handed out and not given back.
    pub open spec fn is_allocated(&self, id: int) -> bool {
        0 <= id < self.current_spec() && !self.recycled_spec().contains(id as usize)
    }

    /// Given-back ids are distinct and were handed out before.
    pub open spec fn wf(&self) -> bool {
        &&& self.recycled_spec().no_duplicates()
        &&& forall|k: int| 0 <= k < self.recycled_spec().len() ==> #[trigger] self.recycled_spec()[k] < self.current_spec()
    }

    /// An allocator that has handed out nothing.
    pub fn new() -> (a: Self)
        ensures
            a.wf(),
            a.current_spec() == 0,
            a.recycled_spec() == Seq::<usize>::empty(),
    {
        RecycleAllocator { current: 0, recycled: Vec::new() }
    }

    /// Whether another id can be handed out.
    pub open spec fn can_allocate(&self) -> bool {
        self.recycled_spec().len() > 0 || self.current_spec() < usize::MAX
    }

    /// Whether another id can be handed out (see `can_allocate`).
    pub fn has_free_id(&self) -> (free: bool)
        ensures
            free == self.can_allocate(),
    {
        self.recycled.len() > 0 || self.current < usize::MAX
    }

    /// Hands out an id: the most recently given-back one if there is one,
    /// otherwise the next fresh id.
    pub fn allocate(&mut self) -> (id: usize)
        requires
            old(self).wf(),
            old(self).can_allocate(),
        ensures
            handed_out(old(self), final(self), id),
    {
        match self.recycled.pop() {
            Some(id) => {
                proof {
                    let r = old(self).recycled@;
                    assert(r == self.recycled@.push(id));
                    assert(r[r.len() - 1] == id);
                    assert forall|k: int| 0 <= k < self.recycled@.len() implies #[trigger] self.recycled@[k] != id by {
                        assert(r[k] == self.recycled@[k]);
                    }
                    assert forall|k: int| k != id implies (#[trigger] self.is_allocated(k) <==> old(self).is_allocated(k)) by {
                        if 0 <= k < self.current {
                            if r.contains(k as usize) {
                                let t = choose|t: int| 0 <= t < r.len() && r[t] == k as usize;
                                assert(self.recycled@[t] == k as usize);
                            }
                            if self.recycled@.contains(k as usize) {
                                let t = choose|t: int| 0 <= t < self.recycled@.len() && self.recycled@[t] == k as usize;
                                assert(r[t] == k as usize);
                            }
                        }
                    }
                    assert(r[r.len() - 1] == id);
                }
                id
            },
            None => {
                self.current = self.current + 1;
                self.current - 1
            },
        }
    }

    /// A second allocator in the same state as this one.
    pub fn duplicate(&self) -> (a: Self)
        ensures
            a.current_spec() == self.current_spec(),
            a.recycled_spec() == self.recycled_spec(),
    {
        let mut recycled: Vec<usize> = Vec::new();
        let mut i: usize = 0;
        while i < self.recycled.len()
            invariant
                0 <= i <= self.recycled.len(),
                recycled@ == self.recycled@.subrange(0, i as int),
            decreases self.recycled.len() - i,
        {
            recycled.push(self.recycled[i]);
            i = i + 1;
        }
        RecycleAllocator { current: self.current, recycled }
    }

    /// Gives back a handed-out id so that it can be handed out again.
    pub fn deallocate(&mut self, id: usize)
        requires
            old(self).wf(),
            old(self).is_allocated(id as int),
        ensures
            final(self).wf(),
            final(self).current_spec() == old(self).current_spec(),
            final(self).recycled_spec() == old(self).recycled_spec().push(id),
            !final(self).is_allocated(id as int),
            forall|k: int| k != id ==> (#[trigger] final(self).is_allocated(k) <==> old(self).is_allocated(k)),
    {
        self.recycled.push(id);
        proof {
            let r = old(self).recycled@;
            assert(self.recycled@[r.len() as int] == id);
            assert forall|k: int| k != id implies (#[trigger] self.is_allocated(k) <==> old(self).is_allocated(k)) by {
                if self.recycled@.contains(k as usize) && 0 <= k < self.current {
                    let t = choose|t: int| 0 <= t < self.recycled@.len() && self.recycled@[t] == k as usize;
                    assert(r[t] == k as usize);
                }
                if r.contains(k as usize) {
                    let t = choose|t: int| 0 <= t < r.len() && r[t] == k as usize;
                    assert(self.recycled@[t] == k as usize);
                }
            }
        }
    }
}

/// `b` is the allocator `a` after it handed out `id`: the id was free and
/// is now taken, no other id changed, and it is the most recently
/// given-back id when there is one, otherwise the next fresh id.
pub open spec fn handed_out(a: &RecycleAllocator, b: &RecycleAllocator, id: usize) -> bool {
    &&& b.wf()
    &&& !a.is_allocated(id as int)
    &&& b.is_allocated(id as int)
    &&& forall|k: int| k != id ==> (#[trigger] b.is_allocated(k) <==> a.is_allocated(k))
    &&& a.recycled_spec().len() > 0 ==> {
        &&& id == a.recycled_spec().last()
        &&& b.recycled_spec() == a.recycled_spec().drop_last()
        &&& b.current_spec() == a.current_spec()
    }
    &&& a.recycled_spec().len() == 0 ==> {
        &&& id == a.current_spec()
        &&& b.current_spec() == a.current_spec() + 1
        &&& b.recycled_spec() == a.recycled_spec()
    }
}

/// An id handed out while `taken` was already taken is not `taken`: a
/// forked task or process never gets the pid of one that is still alive.
pub proof fn lemma_handed_out_is_fresh(a: &RecycleAllocator, b: &RecycleAllocator, id: usize, taken: usize)
    requires
        a.is_allocated(taken as int),
        handed_out(a, b, id),
    ensures
        id != taken,
        b.is_allocated(taken as int),
{
}

/// Giving back an id and then asking for one hands out that same id and
/// returns the allocator to the state it had before the id was given back.
pub proof fn lemma_dealloc_then_alloc(a0: &RecycleAllocator, a1: &RecycleAllocator, a2: &RecycleAllocator, x: usize, id: usize)
    requires
        a1.current_spec() == a0.current_spec(),
        a1.recycled_spec() == a0.recycled_spec().push(x),
        a1.recycled_spec().len() > 0 ==> {
            &&& id == a1.recycled_spec().last()
            &&& a2.recycled_spec() == a1.recycled_spec().drop_last()
            &&& a2.current_spec() == a1.current_spec()
        },
    ensures
        id == x,
        a2.recycled_spec() == a0.recycled_spec(),
        a2.current_spec() == a0.current_spec(),
{
    assert(a0.recycled_spec().push(x).drop_last() =~= a0.recycled_spec());
}

} // verus!
