//! One task's virtual address space: the sole authority for creating and
//! destroying page mappings and for translating virtual addresses into
//! physical ones.

use vstd::prelude::*;
use crate::addr::{vpn_of, PAGE_SIZE};
use crate::frame::FrameAllocator;
use crate::paging::{
    frames_in_range, in_vpn_range, is_mapped, lemma_frames_in_range_push, lemma_mapping_at_index,
    lemma_remove_range_push, mapping_at, new_pages_seq, ppns_bounded, range_free, range_mapped,
    remove_range, vpns_unique, PageMapping,
};
use crate::perm::MapPermission;

verus! {

/// Why a mapping operation was refused. The address space is left unchanged
/// whenever one of these is returned.
#[derive(Clone, Copy, Debug, PartialEq, Eq, Structural)]
pub enum MapError {
    /// Some page of the requested range is already mapped.
    Overlap,
    /// The frame allocator cannot back every page of the requested range.
    OutOfFrames,
    /// Some page of the requested range is not mapped.
    NotMapped,
}

/// The physical address that `pages` assigns to virtual address `va`:
/// the backing frame's base plus the offset within the page.
pub open spec fn spec_translate(pages: Seq<PageMapping>, va: usize) -> Option<usize> {
    if is_mapped(pages, vpn_of(va)) {
        Some(
            (mapping_at(pages, vpn_of(va)).ppn as int * PAGE_SIZE as int + va as int
                % PAGE_SIZE as int) as usize,
        )
    } else {
        None
    }
}

/// One task's page table, as a list of single-page mappings.
pub struct AddressSpace {
    pub pages: Vec<PageMapping>,
}

impl AddressSpace {
    /// Well-formed over a machine with `num_frames` physical frames: no
    /// virtual page mapped twice, every backing frame real.
    pub open spec fn wf(&self, num_frames: usize) -> bool {
        vpns_unique(self.pages@) && ppns_bounded(self.pages@, num_frames)
    }

    /// An empty address space.
    pub fn new() -> (s: AddressSpace)
        ensures
            s.pages@ == Seq::<PageMapping>::empty(),
    {
        AddressSpace { pages: Vec::new() }
    }

    /// The entry mapping virtual page `vpn`, if any.
    pub fn lookup(&self, vpn: usize) -> (r: Option<PageMapping>)
        requires
            vpns_unique(self.pages@),
        ensures
            match r {
                Some(p) => is_mapped(self.pages@, vpn as int) && p == mapping_at(
                    self.pages@,
                    vpn as int,
                ),
                None => !is_mapped(self.pages@, vpn as int),
            },
    {
        let mut i: usize = 0;
        while i < self.pages.len()
            invariant
                i <= self.pages@.len(),
                vpns_unique(self.pages@),
                forall|j: int| 0 <= j < i ==> (#[trigger] self.pages@[j]).vpn != vpn,
            decreases self.pages@.len() - i,
        {
            if self.pages[i].vpn == vpn {
                proof {
                    lemma_mapping_at_index(self.pages@, i as int);
                }
                return Some(self.pages[i]);
            }
            i += 1;
        }
        None
    }

    /// Translates virtual address `va`, returning the physical address it is
    /// currently mapped to, or `None` for an unmapped address.
    pub fn translate(&self, va: usize) -> (r: Option<usize>)
        requires
            vpns_unique(self.pages@),
            forall|i: int|
                0 <= i < self.pages@.len() ==> (#[trigger] self.pages@[i]).ppn as int
                    * PAGE_SIZE as int + PAGE_SIZE as int <= usize::MAX as int,
        ensures
            r == spec_translate(self.pages@, va),
    {
        let vpn = va / PAGE_SIZE;
        match self.lookup(vpn) {
            Some(p) => {
                proof {
                    let idx = crate::paging::index_of_vpn(self.pages@, vpn as int);
                    assert(p == self.pages@[idx]);
                }
                let off = va % PAGE_SIZE;
                Some(p.ppn * PAGE_SIZE + off)
            },
            None => None,
        }
    }

    /// Maps the virtual pages `[vs, ve)` with permission `perm`, backing each
    /// with a freshly allocated frame. On any failure the address space and
    /// the allocator are left unchanged: the range is checked for overlap and
    /// the allocator for capacity before any frame is taken.
    pub fn map(
        &mut self,
        vs: usize,
        ve: usize,
        perm: MapPermission,
        alloc: &mut FrameAllocator,
    ) -> (r: Result<(), MapError>)
        requires
            vs <= ve,
            old(self).wf(old(alloc).cap),
            old(alloc).wf(),
        ensures
            final(alloc).cap == old(alloc).cap,
            final(alloc).wf(),
            final(self).wf(old(alloc).cap),
            match r {
                Ok(()) => range_free(old(self).pages@, vs as int, ve as int)
                    && ve - vs <= old(alloc).free@.len()
                    && final(self).pages@ == old(self).pages@
                        + new_pages_seq(old(alloc).free@, vs as int, ve - vs, perm)
                    && final(alloc).free@
                        == old(alloc).free@.take(old(alloc).free@.len() - (ve - vs)),
                Err(MapError::Overlap) => !range_free(old(self).pages@, vs as int, ve as int)
                    && final(self).pages@ == old(self).pages@
                    && final(alloc).free@ == old(alloc).free@,
                Err(MapError::OutOfFrames) => range_free(old(self).pages@, vs as int, ve as int)
                    && ve - vs > old(alloc).free@.len() && final(self).pages@ == old(self).pages@
                    && final(alloc).free@ == old(alloc).free@,
                Err(MapError::NotMapped) => false,
            },
    {
        let mut v = vs;
        while v < ve
            invariant
                vs <= v <= ve,
                self.pages@ == old(self).pages@,
                alloc.free@ == old(alloc).free@,
                alloc.cap == old(alloc).cap,
                alloc.wf(),
                old(self).wf(old(alloc).cap),
                range_free(self.pages@, vs as int, v as int),
            decreases ve - v,
        {
            if self.lookup(v).is_some() {
                return Err(MapError::Overlap);
            }
            v += 1;
        }
        let n = ve - vs;
        if n > alloc.frames_available() {
            return Err(MapError::OutOfFrames);
        }
        let ghost old_pages = old(self).pages@;
        let ghost old_free = old(alloc).free@;
        let mut i: usize = 0;
        while i < n
            invariant
                i <= n,
                n == ve - vs,
                n <= old_free.len(),
                alloc.cap == old(alloc).cap,
                alloc.wf(),
                alloc.free@ == old_free.take(old_free.len() - i),
                self.pages@ == old_pages + new_pages_seq(old_free, vs as int, i as int, perm),
                forall|j: int|
                    0 <= j < old_free.len() ==> (#[trigger] old_free[j]) < old(alloc).cap,
            decreases n - i,
        {
            let ppn = alloc.alloc_frame();
            self.pages.push(PageMapping { vpn: vs + i, ppn, perm });
            proof {
                assert(ppn == old_free[old_free.len() - 1 - i as int]);
                assert(alloc.free@ =~= old_free.take(old_free.len() - (i + 1)));
                assert(self.pages@ =~= old_pages + new_pages_seq(
                    old_free,
                    vs as int,
                    i + 1 as int,
                    perm,
                ));
            }
            i += 1;
        }
        proof {
            let combined = self.pages@;
            let olen = old_pages.len() as int;
            assert forall|a: int, b: int|
                0 <= a < b < combined.len() implies combined[a].vpn != combined[b].vpn by {
                if b < olen {
                    assert(old_pages[a].vpn != old_pages[b].vpn);
                } else if a >= olen {
                    assert(combined[a].vpn as int == vs + (a - olen));
                    assert(combined[b].vpn as int == vs + (b - olen));
                } else {
                    assert(combined[b].vpn as int == vs + (b - olen));
                    assert(vs <= combined[b].vpn as int && (combined[b].vpn as int) < ve as int);
                    assert(!is_mapped(old_pages, combined[b].vpn as int));
                    if combined[a].vpn == combined[b].vpn {
                        assert(0 <= a < old_pages.len()
                            && old_pages[a].vpn as int == combined[b].vpn as int);
                        assert(false);
                    }
                }
            }
            assert forall|k: int|
                0 <= k < combined.len() implies (#[trigger] combined[k]).ppn < old(
                alloc,
            ).cap by {
                if k >= olen {
                    assert(combined[k].ppn == old_free[old_free.len() - 1 - (k - olen)]);
                }
            }
        }
        Ok(())
    }

    /// Unmaps the virtual pages `[vs, ve)`, returning every backing frame to
    /// the allocator. Fails with `NotMapped`, changing nothing, if any page
    /// of the range is not currently mapped.
    pub fn unmap(&mut self, vs: usize, ve: usize, alloc: &mut FrameAllocator) -> (r: Result<
        (),
        MapError,
    >)
        requires
            vs <= ve,
            old(self).wf(old(alloc).cap),
            old(alloc).wf(),
        ensures
            final(alloc).cap == old(alloc).cap,
            final(alloc).wf(),
            final(self).wf(old(alloc).cap),
            match r {
                Ok(()) => range_mapped(old(self).pages@, vs as int, ve as int)
                    && final(self).pages@ == remove_range(old(self).pages@, vs as int, ve as int)
                    && final(alloc).free@ == old(alloc).free@
                        + frames_in_range(old(self).pages@, vs as int, ve as int),
                Err(MapError::NotMapped) => !range_mapped(old(self).pages@, vs as int, ve as int)
                    && final(self).pages@ == old(self).pages@
                    && final(alloc).free@ == old(alloc).free@,
                _ => false,
            },
    {
        let mut v = vs;
        while v < ve
            invariant
                vs <= v <= ve,
                self.pages@ == old(self).pages@,
                alloc.free@ == old(alloc).free@,
                alloc.cap == old(alloc).cap,
                alloc.wf(),
                old(self).wf(old(alloc).cap),
                range_mapped(self.pages@, vs as int, v as int),
            decreases ve - v,
        {
            if self.lookup(v).is_none() {
                return Err(MapError::NotMapped);
            }
            v += 1;
        }
        let ghost old_pages = old(self).pages@;
        let ghost old_free = old(alloc).free@;
        let mut kept: Vec<PageMapping> = Vec::new();
        let mut i: usize = 0;
        while i < self.pages.len()
            invariant
                i <= self.pages@.len(),
                self.pages@ == old_pages,
                alloc.cap == old(alloc).cap,
                alloc.wf(),
                vpns_unique(old_pages),
                ppns_bounded(old_pages, old(alloc).cap),
                kept@ == remove_range(old_pages.take(i as int), vs as int, ve as int),
                alloc.free@ == old_free + frames_in_range(
                    old_pages.take(i as int),
                    vs as int,
                    ve as int,
                ),
                vpns_unique(kept@),
                ppns_bounded(kept@, old(alloc).cap),
                forall|k: int|
                    0 <= k < kept@.len() ==> exists|j: int|
                        0 <= j < i && #[trigger] kept@[k] == old_pages[j],
            decreases self.pages@.len() - i,
        {
            let p = self.pages[i];
            let ghost prev_kept = kept@;
            if vs <= p.vpn && p.vpn < ve {
                alloc.dealloc_frame(p.ppn);
            } else {
                kept.push(p);
                proof {
                    assert forall|a: int, b: int|
                        0 <= a < b < kept@.len() implies kept@[a].vpn != kept@[b].vpn by {
                        if b == kept@.len() - 1 {
                            let j = choose|j: int|
                                0 <= j < i && #[trigger] prev_kept[a] == old_pages[j];
                            assert(old_pages[j].vpn != old_pages[i as int].vpn);
                        }
                    }
                    assert forall|k: int|
                        0 <= k < kept@.len() implies exists|j: int|
                            0 <= j < i + 1 && #[trigger] kept@[k] == old_pages[j] by {
                        if k < kept@.len() - 1 {
                            let j = choose|j: int|
                                0 <= j < i && #[trigger] prev_kept[k] == old_pages[j];
                            assert(0 <= j < i + 1 && kept@[k] == old_pages[j]);
                        } else {
                            assert(kept@[k] == old_pages[i as int]);
                        }
                    }
                }
            }
            proof {
                assert(old_pages.take(i + 1 as int) =~= old_pages.take(i as int).push(
                    old_pages[i as int],
                ));
                lemma_remove_range_push(
                    old_pages.take(i as int),
                    old_pages[i as int],
                    vs as int,
                    ve as int,
                );
                lemma_frames_in_range_push(
                    old_pages.take(i as int),
                    old_pages[i as int],
                    vs as int,
                    ve as int,
                );
            }
            i += 1;
        }
        proof {
            assert(old_pages.take(old_pages.len() as int) =~= old_pages);
        }
        self.pages = kept;
        Ok(())
    }
}

} // verus!
