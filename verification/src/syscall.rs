//! The syscall handlers: thin entry points that validate untrusted arguments,
//! delegate to the task manager, and report results through the two-valued
//! syscall return convention (`0`, or `-1` on any rejected request).
//!
//! A real trap trampoline would pass raw register values in and hand the
//! returned word back; the clock reading `now_us` likewise comes from the
//! platform timer outside this crate.

use vstd::prelude::*;
use vstd::arithmetic::div_mod::lemma_fundamental_div_mod;
use crate::addr::{
    is_page_aligned, lemma_aligned_range_pages, page_aligned, pages_for, pages_for_spec, vpn_of,
    MAX_SYSCALL_NUM,
};
use crate::bytes::{
    lemma_times_bytes_len, push_le4, push_le8, status_code, task_info_bytes, time_val_bytes,
    times_bytes,
};
use crate::manager::{
    can_write, spec_exit, spec_suspend, spec_tm_mmap, spec_tm_munmap, write_mem, TaskManager,
    TmView,
};
use crate::perm::{check_port, perm_of_port, port_valid, spec_perm_of_port};
use crate::task::TaskStatus;

verus! {

/// Bytes that a `TaskInfo` occupies on the wire: the status tag, four bytes
/// per syscall counter, and the millisecond running time.
pub const TASK_INFO_BYTES: usize = 1 + 4 * MAX_SYSCALL_NUM + 8;

/// Wall-clock time split into whole seconds and the microseconds within the
/// second, as `sys_get_time` writes it.
#[derive(Clone, Copy, Debug, PartialEq, Eq, Structural)]
pub struct TimeVal {
    pub sec: usize,
    pub usec: usize,
}

/// Per-task report that `sys_task_info` writes: run status, a snapshot of the
/// syscall counters, and milliseconds since first schedule. Computed on
/// demand, never stored.
#[derive(Clone, Debug)]
pub struct TaskInfo {
    pub status: TaskStatus,
    pub syscall_times: Vec<u32>,
    pub time: usize,
}

/// The `TimeVal` of a clock reading of `us` microseconds.
pub open spec fn spec_time_val(us: usize) -> TimeVal {
    TimeVal {
        sec: (us as int / 1_000_000) as usize,
        usec: (us as int % 1_000_000) as usize,
    }
}

/// Effect of `sys_mmap(start, len, port)` on the machine: the new state and
/// the returned word. Validation order: page alignment of `start`, then the
/// `port` bits, then a zero-length range, then the frame budget, then
/// overlap.
pub open spec fn spec_sys_mmap(s: TmView, start: usize, len: usize, port: usize) -> (TmView, int) {
    if !is_page_aligned(start) {
        (s, -1)
    } else if !port_valid(port) {
        (s, -1)
    } else if len == 0 {
        (s, -1)
    } else if pages_for_spec(len) > s.free.len() {
        (s, -1)
    } else {
        spec_tm_mmap(s, vpn_of(start), vpn_of(start) + pages_for_spec(len), spec_perm_of_port(port))
    }
}

/// Effect of `sys_munmap(start, len)` on the machine.
pub open spec fn spec_sys_munmap(s: TmView, start: usize, len: usize) -> (TmView, int) {
    if !is_page_aligned(start) {
        (s, -1)
    } else if len == 0 {
        (s, -1)
    } else {
        spec_tm_munmap(s, vpn_of(start), vpn_of(start) + pages_for_spec(len))
    }
}

/// Effect of `sys_get_time(ts, ..)` at clock reading `now_us`: the sixteen
/// wire bytes of the `TimeVal` land in the current task's memory at `ts`,
/// provided the whole destination is mapped writable.
pub open spec fn spec_sys_get_time(s: TmView, ts: usize, now_us: usize) -> (TmView, int) {
    let tv = spec_time_val(now_us);
    let data = time_val_bytes(tv.sec, tv.usec);
    if can_write(s.cur().pages, ts, 16) {
        (TmView { mem: write_mem(s.mem, s.cur().pages, ts, data, 16), ..s }, 0)
    } else {
        (s, -1)
    }
}

/// The wire bytes that `sys_task_info` writes at clock reading `now_us`.
pub open spec fn spec_task_info_data(s: TmView, now_us: usize) -> Seq<u8> {
    task_info_bytes(
        TaskStatus::Running,
        s.cur().syscall_times,
        ((now_us - s.cur().start_time) / 1000) as usize,
    )
}

/// Effect of `sys_task_info(ti)` at clock reading `now_us`.
pub open spec fn spec_sys_task_info(s: TmView, ti: usize, now_us: usize) -> (TmView, int) {
    let data = spec_task_info_data(s, now_us);
    if can_write(s.cur().pages, ti, TASK_INFO_BYTES as int) {
        (TmView { mem: write_mem(s.mem, s.cur().pages, ti, data, TASK_INFO_BYTES as int), ..s }, 0)
    } else {
        (s, -1)
    }
}

/// Terminates the current task: its status turns `Exited`, its address space
/// is destroyed with every frame returned, and the next ready task runs; with
/// none left the machine halts. In a running kernel this call never returns
/// into the exiting task; here the caller observes the machine state after
/// the switch.
pub fn sys_exit(tm: &mut TaskManager, _exit_code: i32)
    requires
        old(tm).wf(),
        !old(tm)@.halted,
    ensures
        final(tm).wf(),
        final(tm)@ == spec_exit(old(tm)@),
{
    tm.exit_current_and_run_next();
}

/// The current task gives up the processor for other tasks; returns `0` once
/// it is scheduled again.
pub fn sys_yield(tm: &mut TaskManager) -> (r: isize)
    requires
        old(tm).wf(),
        !old(tm)@.halted,
    ensures
        final(tm).wf(),
        !final(tm)@.halted,
        final(tm)@ == spec_suspend(old(tm)@),
        r == 0,
{
    tm.suspend_current_and_run_next();
    0
}

/// Reads the clock and writes a `TimeVal` through the translation of `ts` in
/// the current task's address space: `0` on success, `-1` when the
/// destination is not mapped writable there. The timezone argument is
/// accepted and ignored.
pub fn sys_get_time(tm: &mut TaskManager, ts: usize, _tz: usize, now_us: usize) -> (r: isize)
    requires
        old(tm).wf(),
        !old(tm)@.halted,
        ts + 16 <= usize::MAX,
    ensures
        final(tm).wf(),
        !final(tm)@.halted,
        final(tm)@ == spec_sys_get_time(old(tm)@, ts, now_us).0,
        r as int == spec_sys_get_time(old(tm)@, ts, now_us).1,
{
    let tv = time_val_of_us(now_us);
    let data = encode_time_val(&tv);
    let ok = tm.write_to_current(ts, &data);
    if ok {
        0
    } else {
        -1
    }
}

/// Priority scheduling is disabled at this stage: every request is rejected
/// uniformly, whatever the argument.
pub fn sys_set_priority(_prio: isize) -> (r: isize)
    ensures
        r == -1,
{
    -1
}

/// Maps `len` bytes at page-aligned `start` into the current task's address
/// space with the permissions `port` encodes: `0` on success; `-1` for a
/// misaligned `start`, a malformed `port`, a zero-length range, a range
/// beyond the allocatable frames, or an overlap with an existing mapping, in
/// each case changing nothing.
pub fn sys_mmap(tm: &mut TaskManager, start: usize, len: usize, port: usize) -> (r: isize)
    requires
        old(tm).wf(),
        !old(tm)@.halted,
        start + len <= usize::MAX,
    ensures
        final(tm).wf(),
        !final(tm)@.halted,
        final(tm)@ == spec_sys_mmap(old(tm)@, start, len, port).0,
        r as int == spec_sys_mmap(old(tm)@, start, len, port).1,
{
    if !page_aligned(start) {
        return -1;
    }
    if !check_port(port) {
        return -1;
    }
    if len == 0 {
        return -1;
    }
    let frame_num = pages_for(len);
    if frame_num > tm.get_allocatable_ppn() {
        return -1;
    }
    let perm = perm_of_port(port);
    proof {
        lemma_aligned_range_pages(start, len);
    }
    tm.current_task_mmap(start, start + len, perm)
}

/// Unmaps `len` bytes at page-aligned `start` from the current task's address
/// space: `0` on success; `-1` for a misaligned `start`, a zero-length range,
/// or a range with an unmapped page, in each case changing nothing.
pub fn sys_munmap(tm: &mut TaskManager, start: usize, len: usize) -> (r: isize)
    requires
        old(tm).wf(),
        !old(tm)@.halted,
        start + len <= usize::MAX,
    ensures
        final(tm).wf(),
        !final(tm)@.halted,
        final(tm)@ == spec_sys_munmap(old(tm)@, start, len).0,
        r as int == spec_sys_munmap(old(tm)@, start, len).1,
{
    if !page_aligned(start) {
        -1
    } else if len == 0 {
        -1
    } else {
        proof {
            lemma_aligned_range_pages(start, len);
        }
        tm.current_task_munmap(start, start + len)
    }
}

/// Writes the current task's `TaskInfo` through the translation of `ti` in
/// its own address space: `0` on success, `-1` when the destination is not
/// mapped writable there. The clock must not read earlier than the task's
/// first schedule.
pub fn sys_task_info(tm: &mut TaskManager, ti: usize, now_us: usize) -> (r: isize)
    requires
        old(tm).wf(),
        !old(tm)@.halted,
        now_us >= old(tm)@.cur().start_time,
        ti + TASK_INFO_BYTES <= usize::MAX,
    ensures
        final(tm).wf(),
        !final(tm)@.halted,
        final(tm)@ == spec_sys_task_info(old(tm)@, ti, now_us).0,
        r as int == spec_sys_task_info(old(tm)@, ti, now_us).1,
{
    let info = current_task_info(tm, now_us);
    let data = encode_task_info(&info);
    proof {
        lemma_times_bytes_len(info.syscall_times@);
        assert(data@ == spec_task_info_data(old(tm)@, now_us));
        assert(data@.len() == TASK_INFO_BYTES as int);
    }
    let ok = tm.write_to_current(ti, &data);
    if ok {
        0
    } else {
        -1
    }
}

/// The `TimeVal` for a clock reading of `us` microseconds.
pub fn time_val_of_us(us: usize) -> (tv: TimeVal)
    ensures
        tv == spec_time_val(us),
{
    proof {
        lemma_fundamental_div_mod(us as int, 1_000_000);
    }
    TimeVal { sec: us / 1_000_000, usec: us % 1_000_000 }
}

/// The current task's report at clock reading `now_us`: status is reported
/// as `Running` unconditionally (the field is a stub for future richer
/// state), counters are a snapshot, time is milliseconds since first
/// schedule.
pub fn current_task_info(tm: &TaskManager, now_us: usize) -> (info: TaskInfo)
    requires
        tm.wf(),
        !tm@.halted,
        now_us >= tm@.cur().start_time,
    ensures
        info.status == TaskStatus::Running,
        info.syscall_times@ == tm@.cur().syscall_times,
        info.time as int == (now_us - tm@.cur().start_time) / 1000,
{
    let start = tm.get_current_task_start_time();
    let times = tm.get_current_task_syscall_times();
    TaskInfo { status: TaskStatus::Running, syscall_times: times, time: (now_us - start) / 1000 }
}

/// The sixteen wire bytes of a `TimeVal`.
pub fn encode_time_val(tv: &TimeVal) -> (out: Vec<u8>)
    ensures
        out@ == time_val_bytes(tv.sec, tv.usec),
        out@.len() == 16,
{
    let mut out: Vec<u8> = Vec::new();
    push_le8(&mut out, tv.sec as u64);
    push_le8(&mut out, tv.usec as u64);
    proof {
        assert(out@ =~= time_val_bytes(tv.sec, tv.usec));
    }
    out
}

/// The wire bytes of a `TaskInfo`.
pub fn encode_task_info(info: &TaskInfo) -> (out: Vec<u8>)
    ensures
        out@ == task_info_bytes(info.status, info.syscall_times@, info.time),
{
    let mut out: Vec<u8> = Vec::new();
    let code: u8 = match info.status {
        TaskStatus::UnInit => 0u8,
        TaskStatus::Ready => 1u8,
        TaskStatus::Running => 2u8,
        TaskStatus::Exited => 3u8,
    };
    out.push(code);
    proof {
        assert(out@ =~= seq![status_code(info.status)] + times_bytes(
            info.syscall_times@.take(0),
        ));
    }
    let n = info.syscall_times.len();
    let mut i: usize = 0;
    while i < n
        invariant
            i <= n,
            n == info.syscall_times@.len(),
            out@ == seq![status_code(info.status)] + times_bytes(info.syscall_times@.take(i as int)),
        decreases n - i,
    {
        push_le4(&mut out, info.syscall_times[i]);
        proof {
            assert(info.syscall_times@.take(i as int + 1) =~= info.syscall_times@.take(
                i as int,
            ).push(info.syscall_times@[i as int]));
            crate::bytes::lemma_times_bytes_push(
                info.syscall_times@.take(i as int),
                info.syscall_times@[i as int],
            );
            assert(out@ =~= seq![status_code(info.status)] + times_bytes(
                info.syscall_times@.take(i as int + 1),
            ));
        }
        i += 1;
    }
    proof {
        assert(info.syscall_times@.take(n as int) =~= info.syscall_times@);
    }
    push_le8(&mut out, info.time as u64);
    proof {
        assert(out@ =~= task_info_bytes(info.status, info.syscall_times@, info.time));
    }
    out
}

} // verus!
