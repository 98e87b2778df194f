//! Laws of the syscall surface, each proved from the handlers' functional
//! specifications alone.

use vstd::prelude::*;
use vstd::arithmetic::div_mod::lemma_fundamental_div_mod;
use crate::addr::{is_page_aligned, pages_for_spec, vpn_of, MAX_SYSCALL_NUM, PAGE_SIZE};
use crate::paging::{
    all_frames, frames_in_range, in_vpn_range, is_mapped, lemma_frames_in_range_all_in,
    lemma_frames_in_range_all_out, lemma_frames_in_range_concat, lemma_remove_range_all_in,
    lemma_remove_range_all_out, lemma_remove_range_concat, new_pages_seq, range_free,
    range_mapped, remove_range,
};
use crate::perm::port_valid;
use crate::manager::{spec_count_syscall, TmView};
use crate::syscall::{spec_sys_mmap, spec_sys_munmap, spec_time_val, TimeVal};

verus! {

/// Round trip: on a page-aligned `start` and positive `len` whose page range
/// is free and within the frame budget, `mmap` then `munmap` of the same
/// range both return `0`, and the page table of the current task is exactly
/// what it was before the pair of calls.
pub proof fn lemma_mmap_munmap_round_trip(s: TmView, start: usize, len: usize, port: usize)
    requires
        s.wf(),
        !s.halted,
        is_page_aligned(start),
        0 < len,
        start + len <= usize::MAX,
        port_valid(port),
        range_free(s.cur().pages, vpn_of(start), vpn_of(start) + pages_for_spec(len)),
        pages_for_spec(len) <= s.free.len(),
    ensures
        ({
            let (s1, r1) = spec_sys_mmap(s, start, len, port);
            let (s2, r2) = spec_sys_munmap(s1, start, len);
            &&& r1 == 0
            &&& r2 == 0
            &&& s2.tasks[s.current].pages == s.cur().pages
            &&& s2.current == s.current
            &&& s2.tasks.len() == s.tasks.len()
            &&& forall|t: int|
                0 <= t < s.tasks.len() && t != s.current ==> s2.tasks[t] == s.tasks[t]
            &&& s2.free.len() == s.free.len()
        }),
{
    let vs = vpn_of(start);
    let n = pages_for_spec(len);
    let ve = vs + n;
    let pages = s.cur().pages;
    let perm = crate::perm::spec_perm_of_port(port);
    let fresh = new_pages_seq(s.free, vs, n, perm);
    let (s1, r1) = spec_sys_mmap(s, start, len, port);
    assert(0 < n) by {
        lemma_fundamental_div_mod(len as int, PAGE_SIZE as int);
    }
    assert(r1 == 0);
    assert(s1.current == s.current);
    assert(s1.tasks[s.current].pages == pages + fresh);
    // every virtual page number of the mapped range fits in a machine word
    assert(vs * PAGE_SIZE as int <= start as int && 0 <= vs) by {
        lemma_fundamental_div_mod(start as int, PAGE_SIZE as int);
    }
    assert((ve - 1) * PAGE_SIZE as int <= (start + len) as int && (start + len) as int
        <= usize::MAX as int) by {
        crate::addr::lemma_aligned_range_pages(start, len);
        lemma_fundamental_div_mod((start + len) as int, PAGE_SIZE as int);
    }
    assert(ve <= usize::MAX as int) by (nonlinear_arith)
        requires
            (ve - 1) * PAGE_SIZE as int <= usize::MAX as int,
            PAGE_SIZE as int >= 1,
            0 <= vs,
            vs < ve,
    ;
    // the freshly mapped pages cover [vs, ve) exactly
    assert forall|v: int| vs <= v < ve implies is_mapped(pages + fresh, v) by {
        let i = v - vs;
        assert(fresh[i].vpn as int == v);
        assert((pages + fresh)[pages.len() + i] == fresh[i]);
    }
    let (s2, r2) = spec_sys_munmap(s1, start, len);
    assert(range_mapped(pages + fresh, vs, ve));
    assert(r2 == 0);
    // unmapping removes exactly the fresh entries
    lemma_remove_range_concat(pages, fresh, vs, ve);
    assert forall|i: int| 0 <= i < pages.len() implies !in_vpn_range(#[trigger] pages[i], vs, ve) by {
        if in_vpn_range(pages[i], vs, ve) {
            assert(is_mapped(pages, pages[i].vpn as int));
        }
    }
    lemma_remove_range_all_out(pages, vs, ve);
    assert forall|i: int| 0 <= i < fresh.len() implies in_vpn_range(#[trigger] fresh[i], vs, ve) by {
        assert(fresh[i].vpn as int == vs + i);
    }
    lemma_remove_range_all_in(fresh, vs, ve);
    assert(remove_range(pages + fresh, vs, ve) =~= pages);
    // every frame taken for the fresh pages is freed again
    lemma_frames_in_range_concat(pages, fresh, vs, ve);
    lemma_frames_in_range_all_out(pages, vs, ve);
    lemma_frames_in_range_all_in(fresh, vs, ve);
    assert(frames_in_range(pages + fresh, vs, ve) =~= all_frames(fresh));
}

/// A `port` that is zero or sets any bit above bit 2 is refused with `-1`,
/// and no mapping is performed.
pub proof fn lemma_mmap_invalid_port(s: TmView, start: usize, len: usize, port: usize)
    requires
        !port_valid(port),
    ensures
        spec_sys_mmap(s, start, len, port).1 == -1,
        spec_sys_mmap(s, start, len, port).0 == s,
{
}

/// A `start` that is not page-aligned is refused with `-1`, whatever the
/// other arguments, and no mapping is performed.
pub proof fn lemma_mmap_misaligned(s: TmView, start: usize, len: usize, port: usize)
    requires
        !is_page_aligned(start),
    ensures
        spec_sys_mmap(s, start, len, port).1 == -1,
        spec_sys_mmap(s, start, len, port).0 == s,
{
}

/// Of two `mmap` calls with overlapping page ranges, the second returns `-1`
/// and the machine retains exactly the state after the first call.
pub proof fn lemma_mmap_overlap_second_fails(
    s: TmView,
    start1: usize,
    len1: usize,
    port1: usize,
    start2: usize,
    len2: usize,
    port2: usize,
)
    requires
        s.wf(),
        !s.halted,
        spec_sys_mmap(s, start1, len1, port1).1 == 0,
        0 < len1,
        0 < len2,
        vpn_of(start2) < vpn_of(start1) + pages_for_spec(len1),
        vpn_of(start1) < vpn_of(start2) + pages_for_spec(len2),
    ensures
        ({
            let s1 = spec_sys_mmap(s, start1, len1, port1).0;
            let (s2, r2) = spec_sys_mmap(s1, start2, len2, port2);
            r2 == -1 && s2 == s1
        }),
{
    let vs1 = vpn_of(start1);
    let n1 = pages_for_spec(len1);
    let ve1 = vs1 + n1;
    let vs2 = vpn_of(start2);
    let n2 = pages_for_spec(len2);
    let ve2 = vs2 + n2;
    let s1 = spec_sys_mmap(s, start1, len1, port1).0;
    let pages = s.cur().pages;
    let perm1 = crate::perm::spec_perm_of_port(port1);
    let fresh = new_pages_seq(s.free, vs1, n1, perm1);
    assert(0 < n1 && 0 < n2) by {
        lemma_fundamental_div_mod(len1 as int, PAGE_SIZE as int);
        lemma_fundamental_div_mod(len2 as int, PAGE_SIZE as int);
    }
    assert(s1.current == s.current);
    assert(s1.tasks[s1.current].pages == pages + fresh);
    let w = if vs1 >= vs2 {
        vs1
    } else {
        vs2
    };
    assert(vs1 <= w < ve1 && vs2 <= w < ve2);
    let i = w - vs1;
    assert(fresh[i].vpn as int == w) by {
        assert(0 <= vs1) by {
            lemma_fundamental_div_mod(start1 as int, PAGE_SIZE as int);
        }
        assert((vs1 + i) as usize as int == vs1 + i) by {
            assert(vs1 + i < ve1);
            assert(ve1 <= usize::MAX as int) by {
                lemma_vpn_range_fits(start1, len1);
            }
        }
    }
    assert(is_mapped(pages + fresh, w)) by {
        assert((pages + fresh)[pages.len() + i] == fresh[i]);
    }
    assert(!range_free(s1.cur().pages, vs2, ve2));
    if is_page_aligned(start2) && port_valid(port2) && !(pages_for_spec(len2) > s1.free.len()) {
        assert(spec_sys_mmap(s1, start2, len2, port2).1 == -1);
    }
}

/// The page range of any request stays within machine-word virtual page
/// numbers.
proof fn lemma_vpn_range_fits(start: usize, len: usize)
    ensures
        0 <= vpn_of(start),
        vpn_of(start) + pages_for_spec(len) <= usize::MAX as int,
{
    let m = usize::MAX as int;
    let ps = PAGE_SIZE as int;
    lemma_fundamental_div_mod(start as int, ps);
    lemma_fundamental_div_mod(len as int, ps);
    vstd::arithmetic::div_mod::lemma_div_is_ordered(start as int, m, ps);
    vstd::arithmetic::div_mod::lemma_div_is_ordered(len as int, m, ps);
    let q = m / ps;
    lemma_fundamental_div_mod(m, ps);
    assert(2 * q + 2 <= m) by (nonlinear_arith)
        requires
            m == ps * q + m % ps,
            0 <= m % ps < ps,
            ps == 4096,
            m >= 0xffff_ffff,
    ;
}

/// After a successful `mmap`, every mapped page of the current task — the
/// fresh ones included — is backed by its own frame: no two pages share one,
/// no free frame backs one. Exclusive frame ownership is part of machine
/// well-formedness and every operation preserves it.
pub proof fn lemma_mmap_frames_distinct(s: TmView, start: usize, len: usize, port: usize)
    requires
        s.wf(),
        !s.halted,
        spec_sys_mmap(s, start, len, port).1 == 0,
    ensures
        ({
            let s1 = spec_sys_mmap(s, start, len, port).0;
            &&& forall|i: int, j: int|
                0 <= i < j < s1.tasks[s.current].pages.len() ==> s1.tasks[s.current].pages[i].ppn
                    != s1.tasks[s.current].pages[j].ppn
            &&& forall|k: int, i: int|
                0 <= k < s1.free.len() && 0 <= i < s1.tasks[s.current].pages.len() ==> s1.free[k]
                    != s1.tasks[s.current].pages[i].ppn
        }),
{
    let vs = vpn_of(start);
    let ve = vs + pages_for_spec(len);
    assert(0 <= pages_for_spec(len)) by {
        lemma_fundamental_div_mod(len as int, PAGE_SIZE as int);
    }
    crate::manager::lemma_tm_mmap_keeps_owned(s, vs, ve, crate::perm::spec_perm_of_port(port));
    let s1 = spec_sys_mmap(s, start, len, port).0;
    assert(crate::manager::frames_owned_once(s1.tasks, s1.free));
    assert forall|i: int, j: int|
        0 <= i < j < s1.tasks[s.current].pages.len() implies s1.tasks[s.current].pages[i].ppn
        != s1.tasks[s.current].pages[j].ppn by {
        assert(s1.tasks[s.current].pages[i].ppn != s1.tasks[s.current].pages[j].ppn);
    }
    assert forall|k: int, i: int|
        0 <= k < s1.free.len() && 0 <= i < s1.tasks[s.current].pages.len() implies s1.free[k]
        != s1.tasks[s.current].pages[i].ppn by {
        assert(s1.free[k] != s1.tasks[s.current].pages[i].ppn);
    }
}

/// An `mmap` needing more frames than are allocatable returns `-1` and
/// leaves the machine, in particular the allocatable frame count, unchanged.
pub proof fn lemma_mmap_out_of_frames(s: TmView, start: usize, len: usize, port: usize)
    requires
        pages_for_spec(len) > s.free.len(),
    ensures
        spec_sys_mmap(s, start, len, port).1 == -1,
        spec_sys_mmap(s, start, len, port).0 == s,
        spec_sys_mmap(s, start, len, port).0.free == s.free,
{
}

/// The machine after the current task has invoked syscall `id` a further `k`
/// times.
pub open spec fn spec_count_k(s: TmView, id: int, k: nat) -> TmView
    decreases k,
{
    if k == 0 {
        s
    } else {
        spec_count_syscall(spec_count_k(s, id, (k - 1) as nat), id)
    }
}

/// After `k` invocations of syscall `id` by the current task, its counter for
/// `id` has grown by exactly `k`, every other counter of that task is
/// untouched, and every other task is untouched entirely.
pub proof fn lemma_syscall_times_accumulate(s: TmView, id: int, k: nat)
    requires
        s.wf(),
        !s.halted,
        0 <= id < MAX_SYSCALL_NUM as int,
        s.cur().syscall_times[id] + k <= u32::MAX as int,
    ensures
        ({
            let s2 = spec_count_k(s, id, k);
            &&& s2.current == s.current
            &&& s2.tasks.len() == s.tasks.len()
            &&& s2.cur().syscall_times[id] == s.cur().syscall_times[id] + k
            &&& forall|t: int|
                0 <= t < s.tasks.len() && t != s.current ==> s2.tasks[t] == s.tasks[t]
            &&& forall|j: int|
                0 <= j < MAX_SYSCALL_NUM as int && j != id ==> s2.cur().syscall_times[j]
                    == s.cur().syscall_times[j]
            &&& s2.cur().syscall_times.len() == s.cur().syscall_times.len()
            &&& s2.cur().pages == s.cur().pages
            &&& s2.cur().status == s.cur().status
            &&& s2.cur().start_time == s.cur().start_time
            &&& s2.halted == s.halted
            &&& s2.mem == s.mem
            &&& s2.free == s.free
        }),
    decreases k,
{
    if k > 0 {
        lemma_syscall_times_accumulate(s, id, (k - 1) as nat);
    }
}

/// Counting a syscall of the running task changes no other task's record:
/// one task's counters are unaffected by the syscalls other tasks make.
pub proof fn lemma_count_isolated(s: TmView, id: int, t: int)
    requires
        0 <= s.current < s.tasks.len(),
        0 <= t < s.tasks.len(),
        t != s.current,
    ensures
        spec_count_syscall(s, id).tasks[t] == s.tasks[t],
{
}

/// The total microsecond reading that a written `TimeVal` encodes.
pub open spec fn time_val_total_us(tv: TimeVal) -> int {
    tv.sec as int * 1_000_000 + tv.usec as int
}

/// `sec * 1_000_000 + usec` of the `TimeVal` written for a clock reading
/// equals that reading exactly, so across successive calls with a
/// non-decreasing clock the written readings are non-decreasing.
pub proof fn lemma_get_time_monotonic(us1: usize, us2: usize)
    requires
        us1 <= us2,
    ensures
        time_val_total_us(spec_time_val(us1)) == us1,
        time_val_total_us(spec_time_val(us2)) == us2,
        time_val_total_us(spec_time_val(us1)) <= time_val_total_us(spec_time_val(us2)),
{
    lemma_fundamental_div_mod(us1 as int, 1_000_000);
    lemma_fundamental_div_mod(us2 as int, 1_000_000);
}

} // verus!
