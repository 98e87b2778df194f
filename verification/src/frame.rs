//! The physical frame allocator: a stack of free frame numbers.

use vstd::prelude::*;

verus! {

/// Allocator over the frames `0 .. cap` of a machine. Frames are handed out
/// from the top of the `free` stack and returned by pushing.
pub struct FrameAllocator {
    pub free: Vec<usize>,
    pub cap: usize,
}

impl FrameAllocator {
    /// Every free frame number is a real frame of the machine.
    pub open spec fn wf(&self) -> bool {
        forall|i: int| 0 <= i < self.free@.len() ==> (#[trigger] self.free@[i]) < self.cap
    }

    /// A fresh allocator over `cap` frames, all free, in ascending order.
    pub fn new(cap: usize) -> (a: FrameAllocator)
        ensures
            a.wf(),
            a.cap == cap,
            a.free@.len() == cap,
            forall|i: int| 0 <= i < cap ==> (#[trigger] a.free@[i]) as int == i,
    {
        let mut free: Vec<usize> = Vec::new();
        let mut i: usize = 0;
        while i < cap
            invariant
                i <= cap,
                free@.len() == i,
                forall|j: int| 0 <= j < i ==> (#[trigger] free@[j]) as int == j,
            decreases cap - i,
        {
            free.push(i);
            i += 1;
        }
        FrameAllocator { free, cap }
    }

    /// How many frames can still be allocated.
    pub fn frames_available(&self) -> (n: usize)
        ensures
            n == self.free@.len(),
    {
        self.free.len()
    }

    /// Takes the most recently freed frame.
    pub fn alloc_frame(&mut self) -> (ppn: usize)
        requires
            old(self).free@.len() > 0,
            old(self).wf(),
        ensures
            final(self).wf(),
            final(self).cap == old(self).cap,
            ppn == old(self).free@.last(),
            ppn < old(self).cap,
            final(self).free@ == old(self).free@.drop_last(),
    {
        let ppn = self.free.pop().unwrap();
        ppn
    }

    /// Returns frame `ppn` to the free stack.
    pub fn dealloc_frame(&mut self, ppn: usize)
        requires
            old(self).wf(),
            ppn < old(self).cap,
        ensures
            final(self).wf(),
            final(self).cap == old(self).cap,
            final(self).free@ == old(self).free@.push(ppn),
    {
        self.free.push(ppn);
    }
}

} // verus!
