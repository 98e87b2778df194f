//! The task manager: single owner of every task, of the frame allocator and
//! of physical memory; the one authority for "who is running now". All
//! address-space operations of syscall handlers go through it, against the
//! current task.

use vstd::prelude::*;
use vstd::arithmetic::mul::lemma_mul_inequality;
use vstd::pervasive::VecAdditionalExecFns;
use crate::addr::{vpn_of, vpn_ceil, MAX_SYSCALL_NUM, PAGE_SIZE};
use crate::frame::FrameAllocator;
use crate::paging::{
    all_frames, frames_in_range, is_mapped, lemma_freed_source, lemma_freed_source_increasing,
    lemma_kept_source, lemma_kept_source_increasing, mapping_at, new_pages_seq, range_free,
    range_mapped, ppns_bounded, remove_range, vpns_unique, wf_pages, PageMapping,
};
use crate::perm::MapPermission;
use crate::space::{spec_translate, AddressSpace};
use crate::task::{fresh_task_view, TaskControlBlock, TaskStatus, TaskView};

verus! {

/// The mathematical view of the whole machine: every task, the running one,
/// the allocator's free stack, the frame count, physical memory, and whether
/// the machine has halted for want of a runnable task.
#[verifier::ext_equal]
pub struct TmView {
    pub tasks: Seq<TaskView>,
    pub current: int,
    pub free: Seq<usize>,
    pub cap: usize,
    pub mem: Seq<u8>,
    pub halted: bool,
}

impl TmView {
    /// The task currently running.
    pub open spec fn cur(self) -> TaskView {
        self.tasks[self.current]
    }

    /// Well-formedness of one task on a machine with `cap` frames.
    pub open spec fn task_wf(t: TaskView, cap: usize) -> bool {
        wf_pages(t.pages, cap) && t.syscall_times.len() == MAX_SYSCALL_NUM as int
    }

    /// Well-formedness of the machine: memory matches the frame count, every
    /// task and the free stack are well formed, every physical frame has at
    /// most one owner, and unless halted some task is running.
    pub open spec fn wf(self) -> bool {
        &&& self.cap as int * PAGE_SIZE as int <= usize::MAX as int
        &&& self.mem.len() == self.cap as int * PAGE_SIZE as int
        &&& forall|i: int|
            0 <= i < self.tasks.len() ==> Self::task_wf(#[trigger] self.tasks[i], self.cap)
        &&& forall|i: int| 0 <= i < self.free.len() ==> (#[trigger] self.free[i]) < self.cap
        &&& frames_owned_once(self.tasks, self.free)
        &&& !self.halted ==> 0 <= self.current < self.tasks.len() && self.cur().status
            == TaskStatus::Running
    }
}

/// Exclusive frame ownership: the free stack holds no frame twice, no frame
/// backs two mapped pages — within one task or across two — and no free
/// frame backs a mapping. Every physical frame thus has at most one owner.
pub open spec fn frames_owned_once(tasks: Seq<TaskView>, free: Seq<usize>) -> bool {
    &&& free.no_duplicates()
    &&& forall|t: int, i: int, j: int|
        #![trigger tasks[t].pages[i], tasks[t].pages[j]]
        0 <= t < tasks.len() && 0 <= i < tasks[t].pages.len() && 0 <= j < tasks[t].pages.len()
            && i != j ==> tasks[t].pages[i].ppn != tasks[t].pages[j].ppn
    &&& forall|t1: int, i: int, t2: int, j: int|
        #![trigger tasks[t1].pages[i], tasks[t2].pages[j]]
        0 <= t1 < tasks.len() && 0 <= t2 < tasks.len() && t1 != t2 && 0 <= i < tasks[t1].pages.len()
            && 0 <= j < tasks[t2].pages.len() ==> tasks[t1].pages[i].ppn != tasks[t2].pages[j].ppn
    &&& forall|k: int, t: int, i: int|
        #![trigger free[k], tasks[t].pages[i]]
        0 <= k < free.len() && 0 <= t < tasks.len() && 0 <= i < tasks[t].pages.len() ==> free[k]
            != tasks[t].pages[i].ppn
}

/// Frame ownership depends only on the page tables: changing any other task
/// field preserves it.
pub proof fn lemma_frames_owned_same_pages(
    tasks1: Seq<TaskView>,
    tasks2: Seq<TaskView>,
    free: Seq<usize>,
)
    requires
        frames_owned_once(tasks1, free),
        tasks2.len() == tasks1.len(),
        forall|t: int| 0 <= t < tasks1.len() ==> (#[trigger] tasks2[t]).pages == tasks1[t].pages,
    ensures
        frames_owned_once(tasks2, free),
{
    assert forall|t: int, i: int, j: int|
        #![trigger tasks2[t].pages[i], tasks2[t].pages[j]]
        0 <= t < tasks2.len() && 0 <= i < tasks2[t].pages.len() && 0 <= j < tasks2[t].pages.len()
            && i != j implies tasks2[t].pages[i].ppn != tasks2[t].pages[j].ppn by {
        assert(tasks2[t].pages == tasks1[t].pages);
        assert(tasks1[t].pages[i].ppn != tasks1[t].pages[j].ppn);
    }
    assert forall|t1: int, i: int, t2: int, j: int|
        #![trigger tasks2[t1].pages[i], tasks2[t2].pages[j]]
        0 <= t1 < tasks2.len() && 0 <= t2 < tasks2.len() && t1 != t2 && 0 <= i < tasks2[t1].pages.len() && 0 <= j < tasks2[t2].pages.len() implies tasks2[t1].pages[i].ppn
        != tasks2[t2].pages[j].ppn by {
        assert(tasks2[t1].pages == tasks1[t1].pages && tasks2[t2].pages == tasks1[t2].pages);
        assert(tasks1[t1].pages[i].ppn != tasks1[t2].pages[j].ppn);
    }
    assert forall|k: int, t: int, i: int|
        #![trigger free[k], tasks2[t].pages[i]]
        0 <= k < free.len() && 0 <= t < tasks2.len() && 0 <= i < tasks2[t].pages.len() implies free[k] != tasks2[t].pages[i].ppn by {
        assert(tasks2[t].pages == tasks1[t].pages);
        assert(free[k] != tasks1[t].pages[i].ppn);
    }
}

/// Mapping a range in the current task preserves exclusive frame ownership:
/// the fresh pages take distinct frames off the free stack.
pub proof fn lemma_tm_mmap_keeps_owned(s: TmView, vs: int, ve: int, perm: MapPermission)
    requires
        frames_owned_once(s.tasks, s.free),
        0 <= s.current < s.tasks.len(),
        vs <= ve,
    ensures
        frames_owned_once(
            spec_tm_mmap(s, vs, ve, perm).0.tasks,
            spec_tm_mmap(s, vs, ve, perm).0.free,
        ),
{
    let pages = s.cur().pages;
    let c = s.current;
    if !range_free(pages, vs, ve) {
    } else if ve - vs > s.free.len() {
    } else {
        let n = ve - vs;
        let l = s.free.len() as int;
        let fresh = new_pages_seq(s.free, vs, n, perm);
        let pages2 = pages + fresh;
        let tasks2 = spec_tm_mmap(s, vs, ve, perm).0.tasks;
        let free2 = s.free.take(l - n);
        let pl = pages.len() as int;
        assert(tasks2[c].pages == pages2);
        assert forall|k1: int, k2: int|
            0 <= k1 < free2.len() && 0 <= k2 < free2.len() && k1 != k2 implies free2[k1] != free2[k2] by {
            assert(free2[k1] == s.free[k1] && free2[k2] == s.free[k2]);
        }
        assert(free2.no_duplicates());
        assert forall|t: int, i: int, j: int|
            #![trigger tasks2[t].pages[i], tasks2[t].pages[j]]
            0 <= t < tasks2.len() && 0 <= i < tasks2[t].pages.len() && 0 <= j < tasks2[t].pages.len() && i != j implies tasks2[t].pages[i].ppn != tasks2[t].pages[j].ppn by {
            if t != c {
                assert(tasks2[t] == s.tasks[t]);
                assert(s.tasks[t].pages[i].ppn != s.tasks[t].pages[j].ppn);
            } else {
                if i < pl && j < pl {
                    assert(pages2[i] == pages[i] && pages2[j] == pages[j]);
                    assert(s.tasks[c].pages[i].ppn != s.tasks[c].pages[j].ppn);
                } else if i >= pl && j >= pl {
                    assert(pages2[i].ppn == s.free[l - 1 - (i - pl)]);
                    assert(pages2[j].ppn == s.free[l - 1 - (j - pl)]);
                } else {
                    let io = if i < pl { i } else { j };
                    let jn = if i < pl { j } else { i };
                    assert(pages2[io] == pages[io]);
                    assert(pages2[jn].ppn == s.free[l - 1 - (jn - pl)]);
                    assert(s.free[l - 1 - (jn - pl)] != s.tasks[c].pages[io].ppn);
                }
            }
        }
        assert forall|t1: int, i: int, t2: int, j: int|
            #![trigger tasks2[t1].pages[i], tasks2[t2].pages[j]]
            0 <= t1 < tasks2.len() && 0 <= t2 < tasks2.len() && t1 != t2 && 0 <= i < tasks2[t1].pages.len() && 0 <= j < tasks2[t2].pages.len() implies tasks2[t1].pages[i].ppn
            != tasks2[t2].pages[j].ppn by {
            if t1 != c && t2 != c {
                assert(tasks2[t1] == s.tasks[t1] && tasks2[t2] == s.tasks[t2]);
                assert(s.tasks[t1].pages[i].ppn != s.tasks[t2].pages[j].ppn);
            } else {
                let tc = if t1 == c { t1 } else { t2 };
                let to = if t1 == c { t2 } else { t1 };
                let ic = if t1 == c { i } else { j };
                let io = if t1 == c { j } else { i };
                assert(tasks2[to] == s.tasks[to]);
                if ic < pl {
                    assert(pages2[ic] == pages[ic]);
                    assert(s.tasks[c].pages[ic].ppn != s.tasks[to].pages[io].ppn);
                } else {
                    assert(pages2[ic].ppn == s.free[l - 1 - (ic - pl)]);
                    assert(s.free[l - 1 - (ic - pl)] != s.tasks[to].pages[io].ppn);
                }
            }
        }
        assert forall|k: int, t: int, i: int|
            #![trigger free2[k], tasks2[t].pages[i]]
            0 <= k < free2.len() && 0 <= t < tasks2.len() && 0 <= i < tasks2[t].pages.len() implies
            free2[k] != tasks2[t].pages[i].ppn by {
            assert(free2[k] == s.free[k]);
            if t != c {
                assert(tasks2[t] == s.tasks[t]);
                assert(s.free[k] != s.tasks[t].pages[i].ppn);
            } else if i < pl {
                assert(pages2[i] == pages[i]);
                assert(s.free[k] != s.tasks[c].pages[i].ppn);
            } else {
                assert(pages2[i].ppn == s.free[l - 1 - (i - pl)]);
                assert(k != l - 1 - (i - pl));
            }
        }
    }
}

/// Unmapping a range in the current task preserves exclusive frame
/// ownership: the freed frames leave the page table as they join the free
/// stack.
pub proof fn lemma_tm_munmap_keeps_owned(s: TmView, vs: int, ve: int)
    requires
        frames_owned_once(s.tasks, s.free),
        0 <= s.current < s.tasks.len(),
    ensures
        frames_owned_once(spec_tm_munmap(s, vs, ve).0.tasks, spec_tm_munmap(s, vs, ve).0.free),
{
    let pages = s.cur().pages;
    let c = s.current;
    if range_mapped(pages, vs, ve) {
        let kept = remove_range(pages, vs, ve);
        let freed = frames_in_range(pages, vs, ve);
        let tasks2 = spec_tm_munmap(s, vs, ve).0.tasks;
        let free2 = s.free + freed;
        let l = s.free.len() as int;
        assert(tasks2[c].pages == kept);
        assert forall|k1: int, k2: int|
            0 <= k1 < free2.len() && 0 <= k2 < free2.len() && k1 != k2 implies free2[k1] != free2[k2] by {
            if k1 < l && k2 < l {
                assert(free2[k1] == s.free[k1] && free2[k2] == s.free[k2]);
            } else if k1 >= l && k2 >= l {
                let m1 = k1 - l;
                let m2 = k2 - l;
                lemma_freed_source(pages, vs, ve, m1);
                lemma_freed_source(pages, vs, ve, m2);
                if m1 < m2 {
                    lemma_freed_source_increasing(pages, vs, ve, m1, m2);
                } else {
                    lemma_freed_source_increasing(pages, vs, ve, m2, m1);
                }
                let i1 = crate::paging::freed_source_index(pages, vs, ve, m1);
                let i2 = crate::paging::freed_source_index(pages, vs, ve, m2);
                assert(s.tasks[c].pages[i1].ppn != s.tasks[c].pages[i2].ppn);
            } else {
                let kf = if k1 < l { k1 } else { k2 };
                let km = if k1 < l { k2 } else { k1 };
                let m = km - l;
                lemma_freed_source(pages, vs, ve, m);
                let i = crate::paging::freed_source_index(pages, vs, ve, m);
                assert(free2[kf] == s.free[kf] && free2[km] == freed[m]);
                assert(s.free[kf] != s.tasks[c].pages[i].ppn);
            }
        }
        assert(free2.no_duplicates());
        assert forall|t: int, i: int, j: int|
            #![trigger tasks2[t].pages[i], tasks2[t].pages[j]]
            0 <= t < tasks2.len() && 0 <= i < tasks2[t].pages.len() && 0 <= j < tasks2[t].pages.len() && i != j implies tasks2[t].pages[i].ppn != tasks2[t].pages[j].ppn by {
            if t != c {
                assert(tasks2[t] == s.tasks[t]);
                assert(s.tasks[t].pages[i].ppn != s.tasks[t].pages[j].ppn);
            } else {
                lemma_kept_source(pages, vs, ve, i);
                lemma_kept_source(pages, vs, ve, j);
                if i < j {
                    lemma_kept_source_increasing(pages, vs, ve, i, j);
                } else {
                    lemma_kept_source_increasing(pages, vs, ve, j, i);
                }
                let i1 = crate::paging::kept_source_index(pages, vs, ve, i);
                let i2 = crate::paging::kept_source_index(pages, vs, ve, j);
                assert(s.tasks[c].pages[i1].ppn != s.tasks[c].pages[i2].ppn);
            }
        }
        assert forall|t1: int, i: int, t2: int, j: int|
            #![trigger tasks2[t1].pages[i], tasks2[t2].pages[j]]
            0 <= t1 < tasks2.len() && 0 <= t2 < tasks2.len() && t1 != t2 && 0 <= i < tasks2[t1].pages.len() && 0 <= j < tasks2[t2].pages.len() implies tasks2[t1].pages[i].ppn
            != tasks2[t2].pages[j].ppn by {
            if t1 != c && t2 != c {
                assert(tasks2[t1] == s.tasks[t1] && tasks2[t2] == s.tasks[t2]);
                assert(s.tasks[t1].pages[i].ppn != s.tasks[t2].pages[j].ppn);
            } else {
                let ic = if t1 == c { i } else { j };
                let to = if t1 == c { t2 } else { t1 };
                let io = if t1 == c { j } else { i };
                assert(tasks2[to] == s.tasks[to]);
                lemma_kept_source(pages, vs, ve, ic);
                let isrc = crate::paging::kept_source_index(pages, vs, ve, ic);
                assert(s.tasks[c].pages[isrc].ppn != s.tasks[to].pages[io].ppn);
            }
        }
        assert forall|k: int, t: int, i: int|
            #![trigger free2[k], tasks2[t].pages[i]]
            0 <= k < free2.len() && 0 <= t < tasks2.len() && 0 <= i < tasks2[t].pages.len() implies
            free2[k] != tasks2[t].pages[i].ppn by {
            if t != c {
                assert(tasks2[t] == s.tasks[t]);
                if k < l {
                    assert(free2[k] == s.free[k]);
                    assert(s.free[k] != s.tasks[t].pages[i].ppn);
                } else {
                    let m = k - l;
                    lemma_freed_source(pages, vs, ve, m);
                    let isrc = crate::paging::freed_source_index(pages, vs, ve, m);
                    assert(free2[k] == freed[m]);
                    assert(s.tasks[c].pages[isrc].ppn != s.tasks[t].pages[i].ppn);
                }
            } else {
                lemma_kept_source(pages, vs, ve, i);
                let ik = crate::paging::kept_source_index(pages, vs, ve, i);
                if k < l {
                    assert(free2[k] == s.free[k]);
                    assert(s.free[k] != s.tasks[c].pages[ik].ppn);
                } else {
                    let m = k - l;
                    lemma_freed_source(pages, vs, ve, m);
                    let ifr = crate::paging::freed_source_index(pages, vs, ve, m);
                    assert(free2[k] == freed[m]);
                    assert(ifr != ik);
                    assert(s.tasks[c].pages[ifr].ppn != s.tasks[c].pages[ik].ppn);
                }
            }
        }
    }
}

/// A task's exit preserves exclusive frame ownership: its frames move from
/// its page table to the free stack, each exactly once.
pub proof fn lemma_exit_keeps_owned(s: TmView)
    requires
        frames_owned_once(s.tasks, s.free),
        0 <= s.current < s.tasks.len(),
    ensures
        frames_owned_once(spec_exit(s).tasks, spec_exit(s).free),
{
    let pages = s.cur().pages;
    let c = s.current;
    let l = s.free.len() as int;
    let free1 = s.free + all_frames(pages);
    let t1 = s.tasks.update(
        c,
        TaskView { status: TaskStatus::Exited, pages: Seq::empty(), ..s.cur() },
    );
    assert forall|k1: int, k2: int|
        0 <= k1 < free1.len() && 0 <= k2 < free1.len() && k1 != k2 implies free1[k1] != free1[k2] by {
        if k1 < l && k2 < l {
            assert(free1[k1] == s.free[k1] && free1[k2] == s.free[k2]);
        } else if k1 >= l && k2 >= l {
            assert(free1[k1] == pages[k1 - l].ppn && free1[k2] == pages[k2 - l].ppn);
            assert(s.tasks[c].pages[k1 - l].ppn != s.tasks[c].pages[k2 - l].ppn);
        } else {
            let kf = if k1 < l { k1 } else { k2 };
            let km = if k1 < l { k2 } else { k1 };
            assert(free1[kf] == s.free[kf] && free1[km] == pages[km - l].ppn);
            assert(s.free[kf] != s.tasks[c].pages[km - l].ppn);
        }
    }
    assert(free1.no_duplicates());
    assert forall|t: int, i: int, j: int|
        #![trigger t1[t].pages[i], t1[t].pages[j]]
        0 <= t < t1.len() && 0 <= i < t1[t].pages.len() && 0 <= j < t1[t].pages.len() && i != j
            implies t1[t].pages[i].ppn != t1[t].pages[j].ppn by {
        assert(t != c);
        assert(t1[t] == s.tasks[t]);
        assert(s.tasks[t].pages[i].ppn != s.tasks[t].pages[j].ppn);
    }
    assert forall|ta: int, i: int, tb: int, j: int|
        #![trigger t1[ta].pages[i], t1[tb].pages[j]]
        0 <= ta < t1.len() && 0 <= tb < t1.len() && ta != tb && 0 <= i < t1[ta].pages.len() && 0
            <= j < t1[tb].pages.len() implies t1[ta].pages[i].ppn != t1[tb].pages[j].ppn by {
        assert(ta != c && tb != c);
        assert(t1[ta] == s.tasks[ta] && t1[tb] == s.tasks[tb]);
        assert(s.tasks[ta].pages[i].ppn != s.tasks[tb].pages[j].ppn);
    }
    assert forall|k: int, t: int, i: int|
        #![trigger free1[k], t1[t].pages[i]]
        0 <= k < free1.len() && 0 <= t < t1.len() && 0 <= i < t1[t].pages.len() implies free1[k]
        != t1[t].pages[i].ppn by {
        assert(t != c);
        assert(t1[t] == s.tasks[t]);
        if k < l {
            assert(free1[k] == s.free[k]);
            assert(s.free[k] != s.tasks[t].pages[i].ppn);
        } else {
            assert(free1[k] == pages[k - l].ppn);
            assert(s.tasks[c].pages[k - l].ppn != s.tasks[t].pages[i].ppn);
        }
    }
    assert(frames_owned_once(t1, free1));
    lemma_first_ready_props(t1, c + 1, t1.len() as int);
    lemma_first_ready_props(t1, 0, c + 1);
    match next_ready(t1, c) {
        Some(n) => {
            assert(0 <= n < t1.len());
            let t2 = t1.update(n, TaskView { status: TaskStatus::Running, ..t1[n] });
            assert forall|t: int| 0 <= t < t1.len() implies (#[trigger] t2[t]).pages == t1[t].pages by {}
            lemma_frames_owned_same_pages(t1, t2, free1);
        },
        None => {},
    }
}

/// Effect of mapping the virtual pages `[vs, ve)` with permission `perm` in
/// the current task: the new machine state and the syscall return value.
pub open spec fn spec_tm_mmap(s: TmView, vs: int, ve: int, perm: MapPermission) -> (TmView, int) {
    let pages = s.cur().pages;
    if !range_free(pages, vs, ve) {
        (s, -1)
    } else if ve - vs > s.free.len() {
        (s, -1)
    } else {
        let t2 = TaskView { pages: pages + new_pages_seq(s.free, vs, ve - vs, perm), ..s.cur() };
        (
            TmView {
                tasks: s.tasks.update(s.current, t2),
                free: s.free.take(s.free.len() - (ve - vs)),
                ..s
            },
            0,
        )
    }
}

/// Effect of unmapping the virtual pages `[vs, ve)` in the current task.
pub open spec fn spec_tm_munmap(s: TmView, vs: int, ve: int) -> (TmView, int) {
    let pages = s.cur().pages;
    if !range_mapped(pages, vs, ve) {
        (s, -1)
    } else {
        let t2 = TaskView { pages: remove_range(pages, vs, ve), ..s.cur() };
        (
            TmView {
                tasks: s.tasks.update(s.current, t2),
                free: s.free + frames_in_range(pages, vs, ve),
                ..s
            },
            0,
        )
    }
}

/// The first task with status `Ready` at an index in `[lo, hi)`.
pub open spec fn first_ready_in(tasks: Seq<TaskView>, lo: int, hi: int) -> Option<int>
    decreases hi - lo,
{
    if lo >= hi {
        None
    } else if tasks[lo].status == TaskStatus::Ready {
        Some(lo)
    } else {
        first_ready_in(tasks, lo + 1, hi)
    }
}

/// Round-robin choice of the next task to run after `c`: the first `Ready`
/// task after `c`, wrapping around up to and including `c` itself.
pub open spec fn next_ready(tasks: Seq<TaskView>, c: int) -> Option<int> {
    match first_ready_in(tasks, c + 1, tasks.len() as int) {
        Some(n) => Some(n),
        None => first_ready_in(tasks, 0, c + 1),
    }
}

/// Effect of the current task yielding: it turns `Ready`, and the next ready
/// task (possibly itself) runs.
pub open spec fn spec_suspend(s: TmView) -> TmView {
    let t1 = s.tasks.update(s.current, TaskView { status: TaskStatus::Ready, ..s.cur() });
    match next_ready(t1, s.current) {
        Some(n) => TmView {
            tasks: t1.update(n, TaskView { status: TaskStatus::Running, ..t1[n] }),
            current: n,
            ..s
        },
        None => s,  // cannot happen: the suspended task itself is ready
    }
}

/// Effect of the current task exiting: it turns `Exited`, its address space
/// is destroyed and every backing frame returned, and the next ready task
/// runs; with no ready task left the machine halts.
pub open spec fn spec_exit(s: TmView) -> TmView {
    let t1 = s.tasks.update(
        s.current,
        TaskView { status: TaskStatus::Exited, pages: Seq::empty(), ..s.cur() },
    );
    let free1 = s.free + all_frames(s.cur().pages);
    match next_ready(t1, s.current) {
        Some(n) => TmView {
            tasks: t1.update(n, TaskView { status: TaskStatus::Running, ..t1[n] }),
            current: n,
            free: free1,
            ..s
        },
        None => TmView { tasks: t1, free: free1, halted: true, ..s },
    }
}

/// Effect of the current task invoking syscall `id` once: its own counter
/// for `id` goes up by one; nothing else changes.
pub open spec fn spec_count_syscall(s: TmView, id: int) -> TmView {
    let t = s.cur();
    TmView {
        tasks: s.tasks.update(
            s.current,
            TaskView {
                syscall_times: t.syscall_times.update(id, (t.syscall_times[id] + 1) as u32),
                ..t
            },
        ),
        ..s
    }
}

/// Whether address `a` lies in a page mapped writable.
pub open spec fn writable_at(pages: Seq<PageMapping>, a: int) -> bool {
    is_mapped(pages, a / PAGE_SIZE as int) && mapping_at(pages, a / PAGE_SIZE as int).perm.w
}

/// The physical address behind address `a`; meaningful only when mapped.
pub open spec fn pa_at(pages: Seq<PageMapping>, a: int) -> int {
    mapping_at(pages, a / PAGE_SIZE as int).ppn as int * PAGE_SIZE as int + a % PAGE_SIZE as int
}

/// Whether all `n` bytes starting at virtual address `va` lie in writable
/// pages.
pub open spec fn can_write(pages: Seq<PageMapping>, va: usize, n: int) -> bool {
    forall|k: int| 0 <= k < n ==> #[trigger] writable_at(pages, va + k)
}

/// Physical memory after writing the first `k` bytes of `data` through the
/// translation of `[va, va + k)`.
pub open spec fn write_mem(
    mem: Seq<u8>,
    pages: Seq<PageMapping>,
    va: usize,
    data: Seq<u8>,
    k: int,
) -> Seq<u8>
    decreases k,
{
    if k <= 0 {
        mem
    } else {
        write_mem(mem, pages, va, data, k - 1).update(pa_at(pages, va + k - 1), data[k - 1])
    }
}

/// The task manager.
pub struct TaskManager {
    pub tasks: Vec<TaskControlBlock>,
    pub current: usize,
    pub allocator: FrameAllocator,
    pub mem: Vec<u8>,
    pub halted: bool,
}

impl View for TaskManager {
    type V = TmView;

    open spec fn view(&self) -> TmView {
        TmView {
            tasks: self.tasks@.map_values(|t: TaskControlBlock| t@),
            current: self.current as int,
            free: self.allocator.free@,
            cap: self.allocator.cap,
            mem: self.mem@,
            halted: self.halted,
        }
    }
}

impl TaskManager {
    /// Well-formed machine state.
    pub open spec fn wf(&self) -> bool {
        self@.wf()
    }

    /// A machine with `num_frames` physical frames, all free, memory zeroed,
    /// no tasks yet, and nothing running.
    pub fn new(num_frames: usize) -> (tm: TaskManager)
        requires
            num_frames as int * PAGE_SIZE as int <= usize::MAX as int,
        ensures
            tm.wf(),
            tm@.tasks.len() == 0,
            tm@.halted,
            tm@.cap == num_frames,
            tm@.free.len() == num_frames,
            forall|i: int| 0 <= i < num_frames ==> (#[trigger] tm@.free[i]) as int == i,
            forall|i: int| 0 <= i < tm@.mem.len() ==> tm@.mem[i] == 0u8,
    {
        let allocator = FrameAllocator::new(num_frames);
        let size = num_frames * PAGE_SIZE;
        let mut mem: Vec<u8> = Vec::new();
        let mut i: usize = 0;
        while i < size
            invariant
                i <= size,
                mem@.len() == i,
                forall|j: int| 0 <= j < i ==> mem@[j] == 0u8,
            decreases size - i,
        {
            mem.push(0u8);
            i += 1;
        }
        let tm = TaskManager { tasks: Vec::new(), current: 0, allocator, mem, halted: true };
        proof {
            assert(tm@.tasks =~= Seq::<TaskView>::empty());
            assert forall|k1: int, k2: int|
                0 <= k1 < tm@.free.len() && 0 <= k2 < tm@.free.len() && k1 != k2 implies tm@.free[k1]
                != tm@.free[k2] by {
                assert(tm@.free[k1] as int == k1 && tm@.free[k2] as int == k2);
            }
            assert(tm@.free.no_duplicates());
        }
        tm
    }

    /// Creates a task: `Ready`, empty address space, zeroed counters, first
    /// scheduled at `start_time`. On a halted machine the new task starts
    /// running at once.
    pub fn spawn_task(&mut self, start_time: usize) -> (id: usize)
        requires
            old(self).wf(),
        ensures
            final(self).wf(),
            !final(self)@.halted,
            id == old(self)@.tasks.len(),
            final(self)@.tasks == old(self)@.tasks.push(
                fresh_task_view(
                    start_time,
                    if old(self)@.halted {
                        TaskStatus::Running
                    } else {
                        TaskStatus::Ready
                    },
                ),
            ),
            final(self)@.free == old(self)@.free,
            final(self)@.cap == old(self)@.cap,
            final(self)@.mem == old(self)@.mem,
            final(self)@.current == if old(self)@.halted {
                id as int
            } else {
                old(self)@.current
            },
    {
        let id = self.tasks.len();
        let mut t = TaskControlBlock::new(start_time);
        if self.halted {
            t.status = TaskStatus::Running;
            proof {
                assert(t@ =~~= fresh_task_view(start_time, TaskStatus::Running));
            }
            self.tasks.push(t);
            self.current = id;
            self.halted = false;
        } else {
            self.tasks.push(t);
        }
        proof {
            assert(self@.tasks =~~= old(self)@.tasks.push(
                fresh_task_view(
                    start_time,
                    if old(self)@.halted {
                        TaskStatus::Running
                    } else {
                        TaskStatus::Ready
                    },
                ),
            ));
            let v = self@;
            assert forall|i: int|
                0 <= i < v.tasks.len() implies TmView::task_wf(#[trigger] v.tasks[i], v.cap) by {
                if i < old(self)@.tasks.len() {
                    assert(v.tasks[i] == old(self)@.tasks[i]);
                    assert(TmView::task_wf(old(self)@.tasks[i], old(self)@.cap));
                } else {
                    assert(v.tasks[i].pages == Seq::<PageMapping>::empty());
                }
            }
            assert forall|i: int|
                0 <= i < v.free.len() implies (#[trigger] v.free[i]) < v.cap by {
                assert(old(self)@.free[i] < old(self)@.cap);
            }
            let ot = old(self)@.tasks;
            assert forall|t: int, i: int, j: int|
                #![trigger v.tasks[t].pages[i], v.tasks[t].pages[j]]
                0 <= t < v.tasks.len() && 0 <= i < v.tasks[t].pages.len() && 0 <= j < v.tasks[t].pages.len() && i != j implies v.tasks[t].pages[i].ppn != v.tasks[t].pages[j].ppn by {
                assert(t < ot.len());
                assert(v.tasks[t] == ot[t]);
                assert(ot[t].pages[i].ppn != ot[t].pages[j].ppn);
            }
            assert forall|t1: int, i: int, t2: int, j: int|
                #![trigger v.tasks[t1].pages[i], v.tasks[t2].pages[j]]
                0 <= t1 < v.tasks.len() && 0 <= t2 < v.tasks.len() && t1 != t2 && 0 <= i < v.tasks[t1].pages.len() && 0 <= j < v.tasks[t2].pages.len() implies v.tasks[t1].pages[i].ppn
                != v.tasks[t2].pages[j].ppn by {
                assert(t1 < ot.len() && t2 < ot.len());
                assert(v.tasks[t1] == ot[t1] && v.tasks[t2] == ot[t2]);
                assert(ot[t1].pages[i].ppn != ot[t2].pages[j].ppn);
            }
            assert forall|k: int, t: int, i: int|
                #![trigger v.free[k], v.tasks[t].pages[i]]
                0 <= k < v.free.len() && 0 <= t < v.tasks.len() && 0 <= i < v.tasks[t].pages.len()
                    implies v.free[k] != v.tasks[t].pages[i].ppn by {
                assert(t < ot.len());
                assert(v.tasks[t] == ot[t]);
                assert(old(self)@.free[k] != ot[t].pages[i].ppn);
            }
        }
        id
    }

    /// How many frames the allocator can still hand out.
    pub fn get_allocatable_ppn(&self) -> (n: usize)
        ensures
            n == self@.free.len(),
    {
        self.allocator.frames_available()
    }

    /// Translates `va` in the current task's address space; `None` when it is
    /// not mapped there.
    pub fn try_translate_in_current_task(&self, va: usize) -> (r: Option<usize>)
        requires
            self.wf(),
            !self@.halted,
        ensures
            r == spec_translate(self@.cur().pages, va),
    {
        proof {
            let pages = self@.cur().pages;
            assert forall|i: int|
                0 <= i < pages.len() implies (#[trigger] pages[i]).ppn as int * PAGE_SIZE as int
                + PAGE_SIZE as int <= usize::MAX as int by {
                lemma_mul_inequality(
                    pages[i].ppn as int + 1,
                    self@.cap as int,
                    PAGE_SIZE as int,
                );
            }
        }
        self.tasks[self.current].space.translate(va)
    }

    /// Translates `va`, which the caller guarantees is mapped in the current
    /// task: an unmapped address here would be a kernel invariant violation,
    /// so the contract excludes it.
    pub fn translate_in_current_task(&self, va: usize) -> (pa: usize)
        requires
            self.wf(),
            !self@.halted,
            is_mapped(self@.cur().pages, vpn_of(va)),
        ensures
            Some(pa) == spec_translate(self@.cur().pages, va),
    {
        let r = self.try_translate_in_current_task(va);
        r.unwrap()
    }

    /// Maps `[start_va, end_va)`, rounded outward to whole pages, in the
    /// current task's address space; `0` on success, `-1` on any failure,
    /// with no state change on failure.
    pub fn current_task_mmap(&mut self, start_va: usize, end_va: usize, perm: MapPermission) -> (r:
        isize)
        requires
            old(self).wf(),
            !old(self)@.halted,
            start_va <= end_va,
        ensures
            final(self).wf(),
            !final(self)@.halted,
            final(self)@ == spec_tm_mmap(old(self)@, vpn_of(start_va), vpn_ceil(end_va), perm).0,
            r as int == spec_tm_mmap(old(self)@, vpn_of(start_va), vpn_ceil(end_va), perm).1,
    {
        let vs = start_va / PAGE_SIZE;
        let rem = end_va % PAGE_SIZE;
        let ve = if rem != 0 {
            end_va / PAGE_SIZE + 1
        } else {
            end_va / PAGE_SIZE
        };
        proof {
            vstd::arithmetic::div_mod::lemma_div_is_ordered(
                start_va as int,
                end_va as int,
                PAGE_SIZE as int,
            );
            assert(end_va / PAGE_SIZE <= end_va) by (nonlinear_arith);
        }
        let c = self.current;
        proof {
            assert(self@.tasks[c as int] == self.tasks@[c as int]@);
            assert forall|i: int|
                0 <= i < self.allocator.free@.len() implies (#[trigger] self.allocator.free@[i])
                < self.allocator.cap by {
                assert(old(self)@.free[i] < old(self)@.cap);
            }
            assert(self.allocator.wf());
        }
        let task = &mut self.tasks[c];
        let res = task.space.map(vs, ve, perm, &mut self.allocator);
        let r: isize = match res {
            Ok(()) => 0,
            Err(_) => -1,
        };
        proof {
            let s = old(self)@;
            let spec_r = spec_tm_mmap(s, vpn_of(start_va), vpn_ceil(end_va), perm);
            assert(s.cur().pages == old(self).tasks@[c as int].space.pages@);
            if r == 0 {
                assert(self@.tasks =~~= spec_r.0.tasks);
                assert(self@ =~~= spec_r.0);
            } else {
                assert(self@.tasks =~~= s.tasks);
                assert(self@ =~~= s);
            }
            lemma_tm_mmap_keeps_owned(s, vpn_of(start_va), vpn_ceil(end_va), perm);
        }
        r
    }

    /// Unmaps `[start_va, end_va)`, rounded outward to whole pages, in the
    /// current task's address space; `0` on success, `-1` on any failure,
    /// with no state change on failure.
    pub fn current_task_munmap(&mut self, start_va: usize, end_va: usize) -> (r: isize)
        requires
            old(self).wf(),
            !old(self)@.halted,
            start_va <= end_va,
        ensures
            final(self).wf(),
            !final(self)@.halted,
            final(self)@ == spec_tm_munmap(old(self)@, vpn_of(start_va), vpn_ceil(end_va)).0,
            r as int == spec_tm_munmap(old(self)@, vpn_of(start_va), vpn_ceil(end_va)).1,
    {
        let vs = start_va / PAGE_SIZE;
        let rem = end_va % PAGE_SIZE;
        let ve = if rem != 0 {
            end_va / PAGE_SIZE + 1
        } else {
            end_va / PAGE_SIZE
        };
        proof {
            vstd::arithmetic::div_mod::lemma_div_is_ordered(
                start_va as int,
                end_va as int,
                PAGE_SIZE as int,
            );
            assert(end_va / PAGE_SIZE <= end_va) by (nonlinear_arith);
        }
        let c = self.current;
        proof {
            assert(self@.tasks[c as int] == self.tasks@[c as int]@);
            assert forall|i: int|
                0 <= i < self.allocator.free@.len() implies (#[trigger] self.allocator.free@[i])
                < self.allocator.cap by {
                assert(old(self)@.free[i] < old(self)@.cap);
            }
            assert(self.allocator.wf());
        }
        let task = &mut self.tasks[c];
        let res = task.space.unmap(vs, ve, &mut self.allocator);
        let r: isize = match res {
            Ok(()) => 0,
            Err(_) => -1,
        };
        proof {
            let s = old(self)@;
            let spec_r = spec_tm_munmap(s, vpn_of(start_va), vpn_ceil(end_va));
            assert(s.cur().pages == old(self).tasks@[c as int].space.pages@);
            if r == 0 {
                assert(self@.tasks =~~= spec_r.0.tasks);
                assert(self@ =~~= spec_r.0);
            } else {
                assert(self@.tasks =~~= s.tasks);
                assert(self@ =~~= s);
            }
            lemma_tm_munmap_keeps_owned(s, vpn_of(start_va), vpn_ceil(end_va));
        }
        r
    }

    /// The next task to run after `c`, by round-robin search.
    fn find_next_ready(&self, c: usize) -> (r: Option<usize>)
        requires
            c < self@.tasks.len(),
        ensures
            match r {
                Some(n) => next_ready(self@.tasks, c as int) == Some(n as int) && (n as int)
                    < self@.tasks.len(),
                None => next_ready(self@.tasks, c as int) == None::<int>,
            },
    {
        let len = self.tasks.len();
        let mut j = c + 1;
        while j < len
            invariant
                c + 1 <= j <= len,
                c < len,
                len == self@.tasks.len(),
                first_ready_in(self@.tasks, c as int + 1, j as int) == None::<int>,
            decreases len - j,
        {
            let ready = match self.tasks[j].status {
                TaskStatus::Ready => true,
                _ => false,
            };
            proof {
                assert(self@.tasks[j as int] == self.tasks@[j as int]@);
                if ready {
                    lemma_first_ready_found(self@.tasks, c as int + 1, j as int, len as int);
                } else {
                    lemma_first_ready_extend(self@.tasks, c as int + 1, j as int);
                }
            }
            if ready {
                return Some(j);
            }
            j += 1;
        }
        let mut j: usize = 0;
        while j < c + 1
            invariant
                j <= c + 1,
                c < len,
                len == self@.tasks.len(),
                first_ready_in(self@.tasks, c as int + 1, len as int) == None::<int>,
                first_ready_in(self@.tasks, 0, j as int) == None::<int>,
            decreases c + 1 - j,
        {
            let ready = match self.tasks[j].status {
                TaskStatus::Ready => true,
                _ => false,
            };
            proof {
                assert(self@.tasks[j as int] == self.tasks@[j as int]@);
                if ready {
                    lemma_first_ready_found(self@.tasks, 0, j as int, c as int + 1);
                } else {
                    lemma_first_ready_extend(self@.tasks, 0, j as int);
                }
            }
            if ready {
                return Some(j);
            }
            j += 1;
        }
        None
    }

    /// The current task gives the processor up: it turns `Ready` and the next
    /// ready task (possibly itself again) is scheduled.
    pub fn suspend_current_and_run_next(&mut self)
        requires
            old(self).wf(),
            !old(self)@.halted,
        ensures
            final(self).wf(),
            !final(self)@.halted,
            final(self)@ == spec_suspend(old(self)@),
    {
        let c = self.current;
        {
            let t = &mut self.tasks[c];
            t.status = TaskStatus::Ready;
        }
        let ghost t1 = old(self)@.tasks.update(
            c as int,
            TaskView { status: TaskStatus::Ready, ..old(self)@.cur() },
        );
        proof {
            assert(self@.tasks =~~= t1);
        }
        let n_opt = self.find_next_ready(c);
        proof {
            lemma_first_ready_some(t1, 0, c as int + 1, c as int);
            lemma_first_ready_props(t1, c as int + 1, t1.len() as int);
            lemma_first_ready_props(t1, 0, c as int + 1);
        }
        let n = n_opt.unwrap();
        {
            let t = &mut self.tasks[n];
            t.status = TaskStatus::Running;
        }
        self.current = n;
        proof {
            let v = self@;
            assert(v.tasks =~~= t1.update(n as int, TaskView { status: TaskStatus::Running, ..t1[n as int] }));
            assert(v =~~= spec_suspend(old(self)@));
            assert forall|i: int|
                0 <= i < v.tasks.len() implies TmView::task_wf(#[trigger] v.tasks[i], v.cap) by {
                assert(TmView::task_wf(old(self)@.tasks[i], old(self)@.cap));
                assert(v.tasks[i].pages == old(self)@.tasks[i].pages);
                assert(v.tasks[i].syscall_times == old(self)@.tasks[i].syscall_times);
            }
            assert forall|t: int|
                0 <= t < old(self)@.tasks.len() implies (#[trigger] v.tasks[t]).pages == old(
                self,
            )@.tasks[t].pages by {}
            lemma_frames_owned_same_pages(old(self)@.tasks, v.tasks, v.free);
        }
    }

    /// The current task terminates: it turns `Exited`, its address space is
    /// destroyed with every backing frame returned to the allocator, and the
    /// next ready task is scheduled; with none left the machine halts.
    pub fn exit_current_and_run_next(&mut self)
        requires
            old(self).wf(),
            !old(self)@.halted,
        ensures
            final(self).wf(),
            final(self)@ == spec_exit(old(self)@),
    {
        let c = self.current;
        let ghost cur_pages = old(self)@.cur().pages;
        let num = self.tasks[c].space.pages.len();
        let mut i: usize = 0;
        while i < num
            invariant
                i <= num,
                c == old(self).current,
                old(self).wf(),
                !old(self)@.halted,
                c as int == old(self)@.current,
                num == old(self)@.tasks[c as int].pages.len(),
                cur_pages == old(self)@.cur().pages,
                self.tasks@ == old(self).tasks@,
                self.mem@ == old(self).mem@,
                self.halted == old(self).halted,
                self.current == old(self).current,
                self.allocator.cap == old(self).allocator.cap,
                self.allocator.wf(),
                self.allocator.free@ == old(self).allocator.free@ + all_frames(cur_pages).take(
                    i as int,
                ),
            decreases num - i,
        {
            proof {
                assert(old(self)@.tasks[c as int] == old(self).tasks@[c as int]@);
                assert(TmView::task_wf(old(self)@.tasks[c as int], old(self)@.cap));
                assert(cur_pages[i as int].ppn < old(self)@.cap);
            }
            let ppn = self.tasks[c].space.pages[i].ppn;
            self.allocator.dealloc_frame(ppn);
            proof {
                assert(all_frames(cur_pages)[i as int] == cur_pages[i as int].ppn);
                assert(self.allocator.free@ =~= old(self).allocator.free@ + all_frames(
                    cur_pages,
                ).take(i as int + 1));
            }
            i += 1;
        }
        proof {
            assert(all_frames(cur_pages).take(num as int) =~= all_frames(cur_pages));
        }
        {
            let t = &mut self.tasks[c];
            t.status = TaskStatus::Exited;
            t.space = AddressSpace::new();
        }
        let ghost t1 = old(self)@.tasks.update(
            c as int,
            TaskView { status: TaskStatus::Exited, pages: Seq::empty(), ..old(self)@.cur() },
        );
        proof {
            assert(self@.tasks =~~= t1);
        }
        let n_opt = self.find_next_ready(c);
        proof {
            lemma_first_ready_props(t1, c as int + 1, t1.len() as int);
            lemma_first_ready_props(t1, 0, c as int + 1);
        }
        match n_opt {
            Some(n) => {
                {
                    let t = &mut self.tasks[n];
                    t.status = TaskStatus::Running;
                }
                self.current = n;
            },
            None => {
                self.halted = true;
            },
        }
        proof {
            let v = self@;
            assert(v =~~= spec_exit(old(self)@));
            lemma_exit_keeps_owned(old(self)@);
            assert forall|i: int|
                0 <= i < v.tasks.len() implies TmView::task_wf(#[trigger] v.tasks[i], v.cap) by {
                assert(TmView::task_wf(old(self)@.tasks[i], old(self)@.cap));
                if i != c as int {
                    assert(v.tasks[i].pages == old(self)@.tasks[i].pages);
                    assert(v.tasks[i].syscall_times == old(self)@.tasks[i].syscall_times);
                } else {
                    assert(v.tasks[i].pages == Seq::<PageMapping>::empty());
                    assert(v.tasks[i].syscall_times == old(self)@.tasks[i].syscall_times);
                }
            }
            assert forall|i: int|
                0 <= i < v.free.len() implies (#[trigger] v.free[i]) < v.cap by {
                if i < old(self)@.free.len() {
                    assert(old(self)@.free[i] < old(self)@.cap);
                } else {
                    assert(v.free[i] == all_frames(cur_pages)[i - old(self)@.free.len()]);
                    assert(cur_pages[i - old(self)@.free.len()].ppn < old(self)@.cap);
                }
            }
        }
    }

    /// Records one invocation of syscall `id` by the current task.
    pub fn count_syscall(&mut self, id: usize)
        requires
            old(self).wf(),
            !old(self)@.halted,
            id < MAX_SYSCALL_NUM,
            old(self)@.cur().syscall_times[id as int] < u32::MAX,
        ensures
            final(self).wf(),
            !final(self)@.halted,
            final(self)@ == spec_count_syscall(old(self)@, id as int),
    {
        let c = self.current;
        proof {
            assert(old(self)@.tasks[c as int] == old(self).tasks@[c as int]@);
            assert(TmView::task_wf(old(self)@.tasks[c as int], old(self)@.cap));
        }
        let t = &mut self.tasks[c];
        let v = t.syscall_times[id];
        t.syscall_times.set(id, v + 1);
        proof {
            let v2 = self@;
            assert(v2.tasks =~~= spec_count_syscall(old(self)@, id as int).tasks);
            assert(v2 =~~= spec_count_syscall(old(self)@, id as int));
            assert forall|i: int|
                0 <= i < v2.tasks.len() implies TmView::task_wf(#[trigger] v2.tasks[i], v2.cap) by {
                assert(TmView::task_wf(old(self)@.tasks[i], old(self)@.cap));
                assert(v2.tasks[i].pages == old(self)@.tasks[i].pages);
                assert(v2.tasks[i].syscall_times.len() == old(self)@.tasks[i].syscall_times.len());
            }
            assert forall|t: int|
                0 <= t < old(self)@.tasks.len() implies (#[trigger] v2.tasks[t]).pages == old(
                self,
            )@.tasks[t].pages by {}
            lemma_frames_owned_same_pages(old(self)@.tasks, v2.tasks, v2.free);
        }
    }

    /// Snapshot of the current task's syscall invocation counters.
    pub fn get_current_task_syscall_times(&self) -> (r: Vec<u32>)
        requires
            self.wf(),
            !self@.halted,
        ensures
            r@ == self@.cur().syscall_times,
    {
        let c = self.current;
        let n = self.tasks[c].syscall_times.len();
        let mut out: Vec<u32> = Vec::new();
        let mut i: usize = 0;
        while i < n
            invariant
                i <= n,
                c < self.tasks@.len(),
                n == self.tasks@[c as int]@.syscall_times.len(),
                out@ == self.tasks@[c as int]@.syscall_times.take(i as int),
            decreases n - i,
        {
            let x = self.tasks[c].syscall_times[i];
            out.push(x);
            proof {
                assert(out@ =~= self.tasks@[c as int]@.syscall_times.take(i as int + 1));
            }
            i += 1;
        }
        proof {
            assert(out@ =~= self.tasks@[c as int]@.syscall_times);
            assert(self@.cur().syscall_times == self.tasks@[c as int]@.syscall_times);
        }
        out
    }

    /// The wall-clock microseconds at which the current task was first
    /// scheduled.
    pub fn get_current_task_start_time(&self) -> (t: usize)
        requires
            self.wf(),
            !self@.halted,
        ensures
            t == self@.cur().start_time,
    {
        self.tasks[self.current].start_time
    }

    /// Writes `data` into the current task's memory at virtual address `va`,
    /// provided every byte of the destination lies in a page mapped writable;
    /// otherwise writes nothing. Reports whether the write happened.
    pub fn write_to_current(&mut self, va: usize, data: &Vec<u8>) -> (ok: bool)
        requires
            old(self).wf(),
            !old(self)@.halted,
            va + data@.len() <= usize::MAX,
        ensures
            final(self).wf(),
            !final(self)@.halted,
            ok == can_write(old(self)@.cur().pages, va, data@.len() as int),
            ok ==> final(self)@ == (TmView {
                mem: write_mem(
                    old(self)@.mem,
                    old(self)@.cur().pages,
                    va,
                    data@,
                    data@.len() as int,
                ),
                ..old(self)@
            }),
            !ok ==> final(self)@ == old(self)@,
    {
        let n = data.len();
        let c = self.current;
        let ghost pages = old(self)@.cur().pages;
        proof {
            assert(old(self)@.tasks[c as int] == old(self).tasks@[c as int]@);
            assert(TmView::task_wf(old(self)@.tasks[c as int], old(self)@.cap));
        }
        let mut k: usize = 0;
        while k < n
            invariant
                k <= n,
                n == data@.len(),
                va + n <= usize::MAX,
                c == old(self).current,
                c < self.tasks@.len(),
                old(self).wf(),
                !old(self)@.halted,
                *self == *old(self),
                pages == old(self)@.cur().pages,
                pages == self.tasks@[c as int]@.pages,
                vpns_unique(pages),
                forall|j: int| 0 <= j < k ==> #[trigger] writable_at(pages, va + j),
            decreases n - k,
        {
            let vpn = (va + k) / PAGE_SIZE;
            match self.tasks[c].space.lookup(vpn) {
                Some(p) => {
                    if !p.perm.w {
                        proof {
                            assert(!writable_at(pages, va + k as int));
                        }
                        return false;
                    }
                },
                None => {
                    proof {
                        assert(!writable_at(pages, va + k as int));
                    }
                    return false;
                },
            }
            proof {
                assert(writable_at(pages, va + k as int));
            }
            k += 1;
        }
        let ghost old_mem = old(self)@.mem;
        let mut k: usize = 0;
        while k < n
            invariant
                k <= n,
                n == data@.len(),
                va + n <= usize::MAX,
                c == old(self).current,
                c < self.tasks@.len(),
                old(self).wf(),
                !old(self)@.halted,
                can_write(pages, va, n as int),
                pages == old(self)@.cur().pages,
                pages == self.tasks@[c as int]@.pages,
                vpns_unique(pages),
                ppns_bounded(pages, old(self)@.cap),
                old_mem == old(self)@.mem,
                self.tasks@ == old(self).tasks@,
                self.current == old(self).current,
                self.halted == old(self).halted,
                self.allocator.free@ == old(self).allocator.free@,
                self.allocator.cap == old(self).allocator.cap,
                self.mem@.len() == old_mem.len(),
                old_mem.len() == old(self)@.cap as int * PAGE_SIZE as int,
                old(self)@.cap as int * PAGE_SIZE as int <= usize::MAX as int,
                self.mem@ == write_mem(old_mem, pages, va, data@, k as int),
            decreases n - k,
        {
            proof {
                assert(writable_at(pages, va + k as int));
            }
            let vpn = (va + k) / PAGE_SIZE;
            let p = self.tasks[c].space.lookup(vpn).unwrap();
            let off = (va + k) % PAGE_SIZE;
            proof {
                lemma_mul_inequality(p.ppn as int + 1, old(self)@.cap as int, PAGE_SIZE as int);
            }
            let pa = p.ppn * PAGE_SIZE + off;
            let b = data[k];
            self.mem.set(pa, b);
            proof {
                assert(pa as int == pa_at(pages, va + k as int));
                assert(self.mem@ == write_mem(old_mem, pages, va, data@, k as int + 1));
            }
            k += 1;
        }
        proof {
            assert(self@ =~~= TmView {
                mem: write_mem(old(self)@.mem, old(self)@.cur().pages, va, data@, data@.len() as int),
                ..old(self)@
            });
            let v = self@;
            assert forall|i: int|
                0 <= i < v.tasks.len() implies TmView::task_wf(#[trigger] v.tasks[i], v.cap) by {
                assert(TmView::task_wf(old(self)@.tasks[i], old(self)@.cap));
            }
        }
        true
    }
}

/// `first_ready_in(tasks, lo, hi)` yields an in-range index of a `Ready`
/// task whenever it yields anything.
pub proof fn lemma_first_ready_props(tasks: Seq<TaskView>, lo: int, hi: int)
    ensures
        match first_ready_in(tasks, lo, hi) {
            Some(n) => lo <= n < hi && tasks[n].status == TaskStatus::Ready,
            None => true,
        },
    decreases hi - lo,
{
    if lo >= hi {
    } else if tasks[lo].status == TaskStatus::Ready {
    } else {
        lemma_first_ready_props(tasks, lo + 1, hi);
    }
}

/// Scanning one more index extends a so-far-empty search.
pub proof fn lemma_first_ready_extend(tasks: Seq<TaskView>, lo: int, j: int)
    requires
        lo <= j,
        first_ready_in(tasks, lo, j) == None::<int>,
    ensures
        first_ready_in(tasks, lo, j + 1) == if tasks[j].status == TaskStatus::Ready {
            Some(j)
        } else {
            None::<int>
        },
    decreases j - lo,
{
    if lo == j {
    } else {
        lemma_first_ready_extend(tasks, lo + 1, j);
    }
}

/// A search over a range holding a `Ready` task at `j`, empty before `j`,
/// finds exactly `j`.
pub proof fn lemma_first_ready_found(tasks: Seq<TaskView>, lo: int, j: int, hi: int)
    requires
        lo <= j < hi,
        first_ready_in(tasks, lo, j) == None::<int>,
        tasks[j].status == TaskStatus::Ready,
    ensures
        first_ready_in(tasks, lo, hi) == Some(j),
    decreases j - lo,
{
    if lo == j {
    } else {
        lemma_first_ready_found(tasks, lo + 1, j, hi);
    }
}

/// A range holding a `Ready` task yields a result.
pub proof fn lemma_first_ready_some(tasks: Seq<TaskView>, lo: int, hi: int, w: int)
    requires
        lo <= w < hi,
        tasks[w].status == TaskStatus::Ready,
    ensures
        first_ready_in(tasks, lo, hi).is_some(),
    decreases w - lo,
{
    if lo == w {
    } else if tasks[lo].status == TaskStatus::Ready {
    } else {
        lemma_first_ready_some(tasks, lo + 1, hi, w);
    }
}

} // verus!
