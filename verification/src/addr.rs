//! Page-size constants and virtual-address arithmetic.

use vstd::prelude::*;
use vstd::arithmetic::div_mod::{
    lemma_fundamental_div_mod, lemma_hoist_over_denominator, lemma_mod_multiples_vanish,
};

verus! {

/// Size in bytes of one page, and of one physical frame.
pub const PAGE_SIZE: usize = 4096;

/// Number of distinct syscall ids whose invocation counts a task records.
pub const MAX_SYSCALL_NUM: usize = 500;

/// The virtual page number of the page containing address `va`.
pub open spec fn vpn_of(va: usize) -> int {
    va as int / PAGE_SIZE as int
}

/// Whether `va` is a multiple of the page size.
pub open spec fn is_page_aligned(va: usize) -> bool {
    va as int % PAGE_SIZE as int == 0
}

/// Page number one past the last page that the range `[0, addr)` touches:
/// `addr / PAGE_SIZE`, rounded up.
pub open spec fn vpn_ceil(addr: usize) -> int {
    if addr as int % PAGE_SIZE as int == 0 {
        vpn_of(addr)
    } else {
        vpn_of(addr) + 1
    }
}

/// Number of whole pages needed to hold `len` bytes: `len / PAGE_SIZE` rounded up.
pub open spec fn pages_for_spec(len: usize) -> int {
    vpn_ceil(len)
}

/// Reports whether `va` is page-aligned.
pub fn page_aligned(va: usize) -> (b: bool)
    ensures
        b == is_page_aligned(va),
{
    va % PAGE_SIZE == 0
}

/// Number of whole pages needed to hold `len` bytes.
pub fn pages_for(len: usize) -> (n: usize)
    ensures
        n as int == pages_for_spec(len),
{
    let q = len / PAGE_SIZE;
    proof {
        lemma_fundamental_div_mod(len as int, PAGE_SIZE as int);
    }
    if len % PAGE_SIZE != 0 {
        q + 1
    } else {
        q
    }
}

/// On an aligned `start`, the page range of `[start, start + len)` ends
/// exactly `pages_for_spec(len)` pages after the page of `start`.
pub proof fn lemma_aligned_range_pages(start: usize, len: usize)
    requires
        is_page_aligned(start),
        start + len <= usize::MAX,
    ensures
        vpn_ceil((start + len) as usize) == vpn_of(start) + pages_for_spec(len),
        vpn_of(start) <= vpn_ceil((start + len) as usize),
{
    let ps = PAGE_SIZE as int;
    let k = vpn_of(start);
    lemma_fundamental_div_mod(start as int, ps);
    assert(start as int == ps * k);
    lemma_mod_multiples_vanish(k, len as int, ps);
    assert((start + len) % ps == len as int % ps);
    lemma_hoist_over_denominator(len as int, k, PAGE_SIZE as nat);
    assert(len as int / ps + k == (len + k * ps) / ps);
    assert(len + k * ps == start + len) by {
        vstd::arithmetic::mul::lemma_mul_is_commutative(k, ps);
    }
    lemma_fundamental_div_mod(len as int, ps);
}

} // verus!
