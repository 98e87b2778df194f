//! Little-endian encodings of the wire structures the kernel writes into a
//! task's memory.

use vstd::prelude::*;
use crate::task::TaskStatus;

verus! {

/// The four little-endian bytes of `v`.
pub open spec fn le4(v: u32) -> Seq<u8> {
    seq![
        (v & 0xff) as u8,
        ((v >> 8u32) & 0xff) as u8,
        ((v >> 16u32) & 0xff) as u8,
        ((v >> 24u32) & 0xff) as u8,
    ]
}

/// The eight little-endian bytes of `v`.
pub open spec fn le8(v: u64) -> Seq<u8> {
    seq![
        (v & 0xff) as u8,
        ((v >> 8u64) & 0xff) as u8,
        ((v >> 16u64) & 0xff) as u8,
        ((v >> 24u64) & 0xff) as u8,
        ((v >> 32u64) & 0xff) as u8,
        ((v >> 40u64) & 0xff) as u8,
        ((v >> 48u64) & 0xff) as u8,
        ((v >> 56u64) & 0xff) as u8,
    ]
}

/// Wire tag of a task status.
pub open spec fn status_code(s: TaskStatus) -> u8 {
    match s {
        TaskStatus::UnInit => 0u8,
        TaskStatus::Ready => 1u8,
        TaskStatus::Running => 2u8,
        TaskStatus::Exited => 3u8,
    }
}

/// Concatenated `le4` encodings of a counter sequence.
pub open spec fn times_bytes(times: Seq<u32>) -> Seq<u8>
    decreases times.len(),
{
    if times.len() == 0 {
        Seq::empty()
    } else {
        le4(times[0]) + times_bytes(times.drop_first())
    }
}

/// The wire form of a `TimeVal`: seconds, then microseconds, each eight
/// little-endian bytes.
pub open spec fn time_val_bytes(sec: usize, usec: usize) -> Seq<u8> {
    le8(sec as u64) + le8(usec as u64)
}

/// The wire form of a `TaskInfo`: one status byte, the counters, then the
/// millisecond running time as eight little-endian bytes.
pub open spec fn task_info_bytes(status: TaskStatus, times: Seq<u32>, time_ms: usize) -> Seq<u8> {
    seq![status_code(status)] + times_bytes(times) + le8(time_ms as u64)
}

/// `times_bytes` distributes over appending one counter.
pub proof fn lemma_times_bytes_push(times: Seq<u32>, x: u32)
    ensures
        times_bytes(times.push(x)) == times_bytes(times) + le4(x),
    decreases times.len(),
{
    reveal_with_fuel(times_bytes, 3);
    if times.len() == 0 {
        assert(times.push(x).drop_first() =~= Seq::empty());
        assert(times_bytes(times.push(x)) =~= le4(x));
        assert(times_bytes(times) + le4(x) =~= le4(x));
    } else {
        assert(times.push(x).drop_first() =~= times.drop_first().push(x));
        lemma_times_bytes_push(times.drop_first(), x);
        assert(le4(times[0]) + (times_bytes(times.drop_first()) + le4(x)) =~= (le4(times[0])
            + times_bytes(times.drop_first())) + le4(x));
    }
}

/// Each counter takes four bytes on the wire.
pub proof fn lemma_times_bytes_len(times: Seq<u32>)
    ensures
        times_bytes(times).len() == 4 * times.len(),
    decreases times.len(),
{
    if times.len() > 0 {
        lemma_times_bytes_len(times.drop_first());
    }
}

/// Appends the four little-endian bytes of `v`.
pub fn push_le4(out: &mut Vec<u8>, v: u32)
    ensures
        final(out)@ == old(out)@ + le4(v),
{
    out.push((v & 0xff) as u8);
    out.push(((v >> 8u32) & 0xff) as u8);
    out.push(((v >> 16u32) & 0xff) as u8);
    out.push(((v >> 24u32) & 0xff) as u8);
    proof {
        assert(out@ =~= old(out)@ + le4(v));
    }
}

/// Appends the eight little-endian bytes of `v`.
pub fn push_le8(out: &mut Vec<u8>, v: u64)
    ensures
        final(out)@ == old(out)@ + le8(v),
{
    out.push((v & 0xff) as u8);
    out.push(((v >> 8u64) & 0xff) as u8);
    out.push(((v >> 16u64) & 0xff) as u8);
    out.push(((v >> 24u64) & 0xff) as u8);
    out.push(((v >> 32u64) & 0xff) as u8);
    out.push(((v >> 40u64) & 0xff) as u8);
    out.push(((v >> 48u64) & 0xff) as u8);
    out.push(((v >> 56u64) & 0xff) as u8);
    proof {
        assert(out@ =~= old(out)@ + le8(v));
    }
}

} // verus!
