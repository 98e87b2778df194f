//! The mathematical model of a page table: a sequence of single-page
//! mappings, each from one virtual page number to one physical frame with a
//! permission. Spec functions here describe lookup, well-formedness, and the
//! effect of mapping and unmapping a range of pages.

use vstd::prelude::*;
use crate::perm::MapPermission;

verus! {

/// One mapped page: virtual page `vpn` is backed by physical frame `ppn`
/// with permission `perm`.
#[derive(Clone, Copy, Debug, PartialEq, Eq, Structural)]
pub struct PageMapping {
    pub vpn: usize,
    pub ppn: usize,
    pub perm: MapPermission,
}

/// Whether virtual page `vpn` is mapped in `pages`.
pub open spec fn is_mapped(pages: Seq<PageMapping>, vpn: int) -> bool {
    exists|i: int| 0 <= i < pages.len() && pages[i].vpn as int == vpn
}

/// Index of the entry mapping `vpn`; meaningful only when `is_mapped`.
pub open spec fn index_of_vpn(pages: Seq<PageMapping>, vpn: int) -> int {
    choose|i: int| 0 <= i < pages.len() && pages[i].vpn as int == vpn
}

/// The entry mapping `vpn`; meaningful only when `is_mapped`.
pub open spec fn mapping_at(pages: Seq<PageMapping>, vpn: int) -> PageMapping {
    pages[index_of_vpn(pages, vpn)]
}

/// No two entries map the same virtual page.
pub open spec fn vpns_unique(pages: Seq<PageMapping>) -> bool {
    forall|i: int, j: int|
        0 <= i < j < pages.len() ==> pages[i].vpn != pages[j].vpn
}

/// Every backing frame number is below `num_frames`.
pub open spec fn ppns_bounded(pages: Seq<PageMapping>, num_frames: usize) -> bool {
    forall|i: int| 0 <= i < pages.len() ==> (#[trigger] pages[i]).ppn < num_frames
}

/// Well-formed page table over a machine with `num_frames` physical frames.
pub open spec fn wf_pages(pages: Seq<PageMapping>, num_frames: usize) -> bool {
    vpns_unique(pages) && ppns_bounded(pages, num_frames)
}

/// No virtual page in `[vs, ve)` is mapped.
pub open spec fn range_free(pages: Seq<PageMapping>, vs: int, ve: int) -> bool {
    forall|v: int| vs <= v < ve ==> !is_mapped(pages, v)
}

/// Every virtual page in `[vs, ve)` is mapped.
pub open spec fn range_mapped(pages: Seq<PageMapping>, vs: int, ve: int) -> bool {
    forall|v: int| vs <= v < ve ==> is_mapped(pages, v)
}

/// Whether entry `p` maps a virtual page inside `[vs, ve)`.
pub open spec fn in_vpn_range(p: PageMapping, vs: int, ve: int) -> bool {
    vs <= p.vpn as int && (p.vpn as int) < ve
}

/// The page table after unmapping `[vs, ve)`: the entries outside the range,
/// in their original order.
pub open spec fn remove_range(pages: Seq<PageMapping>, vs: int, ve: int) -> Seq<PageMapping>
    decreases pages.len(),
{
    if pages.len() == 0 {
        Seq::empty()
    } else if in_vpn_range(pages[0], vs, ve) {
        remove_range(pages.drop_first(), vs, ve)
    } else {
        seq![pages[0]] + remove_range(pages.drop_first(), vs, ve)
    }
}

/// The frames backing the pages of `[vs, ve)`, in page-table order: what
/// unmapping the range returns to the frame allocator.
pub open spec fn frames_in_range(pages: Seq<PageMapping>, vs: int, ve: int) -> Seq<usize>
    decreases pages.len(),
{
    if pages.len() == 0 {
        Seq::empty()
    } else if in_vpn_range(pages[0], vs, ve) {
        seq![pages[0].ppn] + frames_in_range(pages.drop_first(), vs, ve)
    } else {
        frames_in_range(pages.drop_first(), vs, ve)
    }
}

/// The frames backing all entries of `pages`, in order: what destroying the
/// whole address space returns to the frame allocator.
pub open spec fn all_frames(pages: Seq<PageMapping>) -> Seq<usize> {
    pages.map_values(|p: PageMapping| p.ppn)
}

/// The entries that `map` appends for the range of `n` pages at `vs`:
/// page `vs + i` is backed by the `i`-th frame the allocator hands out,
/// counted from the back of its free list.
pub open spec fn new_pages_seq(free: Seq<usize>, vs: int, n: int, perm: MapPermission)
    -> Seq<PageMapping> {
    Seq::new(n as nat, |i: int| PageMapping {
        vpn: (vs + i) as usize,
        ppn: free[free.len() - 1 - i],
        perm,
    })
}

/// With unique virtual page numbers, the entry found for `pages[i].vpn` is
/// `pages[i]` itself.
pub proof fn lemma_mapping_at_index(pages: Seq<PageMapping>, i: int)
    requires
        vpns_unique(pages),
        0 <= i < pages.len(),
    ensures
        is_mapped(pages, pages[i].vpn as int),
        index_of_vpn(pages, pages[i].vpn as int) == i,
        mapping_at(pages, pages[i].vpn as int) == pages[i],
{
    assert(0 <= i < pages.len() && pages[i].vpn as int == pages[i].vpn as int);
    let j = index_of_vpn(pages, pages[i].vpn as int);
    assert(0 <= j < pages.len() && pages[j].vpn == pages[i].vpn);
    if i < j {
        assert(pages[i].vpn != pages[j].vpn);
    } else if j < i {
        assert(pages[j].vpn != pages[i].vpn);
    }
}

/// `remove_range` distributes over appending one entry.
pub proof fn lemma_remove_range_push(pages: Seq<PageMapping>, p: PageMapping, vs: int, ve: int)
    ensures
        remove_range(pages.push(p), vs, ve) == if in_vpn_range(p, vs, ve) {
            remove_range(pages, vs, ve)
        } else {
            remove_range(pages, vs, ve).push(p)
        },
    decreases pages.len(),
{
    reveal_with_fuel(remove_range, 3);
    if pages.len() == 0 {
        assert(pages.push(p).drop_first() =~= Seq::empty());
        if in_vpn_range(p, vs, ve) {
        } else {
            assert(remove_range(pages, vs, ve).push(p) =~= seq![p]);
            assert(remove_range(pages.push(p), vs, ve) =~= seq![p] + Seq::empty());
            assert(seq![p] + Seq::<PageMapping>::empty() =~= seq![p]);
        }
    } else {
        assert(pages.push(p).drop_first() =~= pages.drop_first().push(p));
        lemma_remove_range_push(pages.drop_first(), p, vs, ve);
        if !in_vpn_range(pages[0], vs, ve) && !in_vpn_range(p, vs, ve) {
            assert(seq![pages[0]] + remove_range(pages.drop_first(), vs, ve).push(p)
                =~= (seq![pages[0]] + remove_range(pages.drop_first(), vs, ve)).push(p));
        }
    }
}

/// `frames_in_range` distributes over appending one entry.
pub proof fn lemma_frames_in_range_push(pages: Seq<PageMapping>, p: PageMapping, vs: int, ve: int)
    ensures
        frames_in_range(pages.push(p), vs, ve) == if in_vpn_range(p, vs, ve) {
            frames_in_range(pages, vs, ve).push(p.ppn)
        } else {
            frames_in_range(pages, vs, ve)
        },
    decreases pages.len(),
{
    reveal_with_fuel(frames_in_range, 3);
    if pages.len() == 0 {
        assert(pages.push(p).drop_first() =~= Seq::empty());
        if in_vpn_range(p, vs, ve) {
            assert(frames_in_range(pages.push(p), vs, ve) =~= seq![p.ppn] + Seq::empty());
            assert(frames_in_range(pages, vs, ve).push(p.ppn) =~= seq![p.ppn] + Seq::<usize>::empty());
        }
    } else {
        assert(pages.push(p).drop_first() =~= pages.drop_first().push(p));
        lemma_frames_in_range_push(pages.drop_first(), p, vs, ve);
        if in_vpn_range(pages[0], vs, ve) && in_vpn_range(p, vs, ve) {
            assert(seq![pages[0].ppn] + frames_in_range(pages.drop_first(), vs, ve).push(p.ppn)
                =~= (seq![pages[0].ppn] + frames_in_range(pages.drop_first(), vs, ve)).push(p.ppn));
        }
    }
}

/// Unmapping a range in which no entry lies leaves the table unchanged.
pub proof fn lemma_remove_range_all_out(pages: Seq<PageMapping>, vs: int, ve: int)
    requires
        forall|i: int| 0 <= i < pages.len() ==> !in_vpn_range(#[trigger] pages[i], vs, ve),
    ensures
        remove_range(pages, vs, ve) == pages,
    decreases pages.len(),
{
    if pages.len() == 0 {
        assert(remove_range(pages, vs, ve) =~= pages);
    } else {
        assert(!in_vpn_range(pages[0], vs, ve));
        lemma_remove_range_all_out(pages.drop_first(), vs, ve);
        assert(seq![pages[0]] + pages.drop_first() =~= pages);
    }
}

/// Unmapping a range containing every entry empties the table.
pub proof fn lemma_remove_range_all_in(pages: Seq<PageMapping>, vs: int, ve: int)
    requires
        forall|i: int| 0 <= i < pages.len() ==> in_vpn_range(#[trigger] pages[i], vs, ve),
    ensures
        remove_range(pages, vs, ve) == Seq::<PageMapping>::empty(),
    decreases pages.len(),
{
    if pages.len() == 0 {
        assert(remove_range(pages, vs, ve) =~= Seq::<PageMapping>::empty());
    } else {
        assert(in_vpn_range(pages[0], vs, ve));
        lemma_remove_range_all_in(pages.drop_first(), vs, ve);
    }
}

/// `frames_in_range` distributes over concatenation.
pub proof fn lemma_frames_in_range_concat(a: Seq<PageMapping>, b: Seq<PageMapping>, vs: int, ve: int)
    ensures
        frames_in_range(a + b, vs, ve) == frames_in_range(a, vs, ve) + frames_in_range(b, vs, ve),
    decreases a.len(),
{
    if a.len() == 0 {
        assert(a + b =~= b);
        assert(frames_in_range(a, vs, ve) + frames_in_range(b, vs, ve) =~= frames_in_range(
            b,
            vs,
            ve,
        ));
    } else {
        assert((a + b)[0] == a[0]);
        assert((a + b).drop_first() =~= a.drop_first() + b);
        lemma_frames_in_range_concat(a.drop_first(), b, vs, ve);
        if in_vpn_range(a[0], vs, ve) {
            assert(seq![a[0].ppn] + (frames_in_range(a.drop_first(), vs, ve) + frames_in_range(
                b,
                vs,
                ve,
            )) =~= (seq![a[0].ppn] + frames_in_range(a.drop_first(), vs, ve)) + frames_in_range(
                b,
                vs,
                ve,
            ));
        }
    }
}

/// Unmapping a range in which no entry lies frees no frame.
pub proof fn lemma_frames_in_range_all_out(pages: Seq<PageMapping>, vs: int, ve: int)
    requires
        forall|i: int| 0 <= i < pages.len() ==> !in_vpn_range(#[trigger] pages[i], vs, ve),
    ensures
        frames_in_range(pages, vs, ve) == Seq::<usize>::empty(),
    decreases pages.len(),
{
    if pages.len() == 0 {
        assert(frames_in_range(pages, vs, ve) =~= Seq::<usize>::empty());
    } else {
        assert(!in_vpn_range(pages[0], vs, ve));
        lemma_frames_in_range_all_out(pages.drop_first(), vs, ve);
    }
}

/// Unmapping a range containing every entry frees every backing frame, in
/// page-table order.
pub proof fn lemma_frames_in_range_all_in(pages: Seq<PageMapping>, vs: int, ve: int)
    requires
        forall|i: int| 0 <= i < pages.len() ==> in_vpn_range(#[trigger] pages[i], vs, ve),
    ensures
        frames_in_range(pages, vs, ve) == all_frames(pages),
    decreases pages.len(),
{
    if pages.len() == 0 {
        assert(frames_in_range(pages, vs, ve) =~= all_frames(pages));
    } else {
        assert(in_vpn_range(pages[0], vs, ve));
        lemma_frames_in_range_all_in(pages.drop_first(), vs, ve);
        assert(all_frames(pages.drop_first()) =~= all_frames(pages).drop_first());
        assert(seq![pages[0].ppn] + all_frames(pages).drop_first() =~= all_frames(pages));
    }
}

/// `remove_range` distributes over concatenation.
pub proof fn lemma_remove_range_concat(a: Seq<PageMapping>, b: Seq<PageMapping>, vs: int, ve: int)
    ensures
        remove_range(a + b, vs, ve) == remove_range(a, vs, ve) + remove_range(b, vs, ve),
    decreases a.len(),
{
    if a.len() == 0 {
        assert(a + b =~= b);
        assert(remove_range(a, vs, ve) + remove_range(b, vs, ve) =~= remove_range(b, vs, ve));
    } else {
        assert((a + b).len() > 0);
        assert((a + b)[0] == a[0]);
        assert((a + b).drop_first() =~= a.drop_first() + b);
        lemma_remove_range_concat(a.drop_first(), b, vs, ve);
        if !in_vpn_range(a[0], vs, ve) {
            assert(seq![a[0]] + (remove_range(a.drop_first(), vs, ve) + remove_range(b, vs, ve))
                =~= (seq![a[0]] + remove_range(a.drop_first(), vs, ve)) + remove_range(b, vs, ve));
        }
    }
}


/// The index in the page table of the entry whose frame is the `m`-th one
/// that unmapping `[vs, ve)` frees.
pub open spec fn freed_source_index(pages: Seq<PageMapping>, vs: int, ve: int, m: int) -> int
    decreases pages.len(),
{
    if pages.len() == 0 {
        0
    } else if in_vpn_range(pages[0], vs, ve) {
        if m == 0 {
            0
        } else {
            1 + freed_source_index(pages.drop_first(), vs, ve, m - 1)
        }
    } else {
        1 + freed_source_index(pages.drop_first(), vs, ve, m)
    }
}

/// The index in the page table of the entry that unmapping `[vs, ve)` keeps
/// at position `m`.
pub open spec fn kept_source_index(pages: Seq<PageMapping>, vs: int, ve: int, m: int) -> int
    decreases pages.len(),
{
    if pages.len() == 0 {
        0
    } else if !in_vpn_range(pages[0], vs, ve) {
        if m == 0 {
            0
        } else {
            1 + kept_source_index(pages.drop_first(), vs, ve, m - 1)
        }
    } else {
        1 + kept_source_index(pages.drop_first(), vs, ve, m)
    }
}

/// The `m`-th frame that unmapping `[vs, ve)` frees backs the in-range page
/// at its source index.
pub proof fn lemma_freed_source(pages: Seq<PageMapping>, vs: int, ve: int, m: int)
    requires
        0 <= m < frames_in_range(pages, vs, ve).len(),
    ensures
        0 <= freed_source_index(pages, vs, ve, m) < pages.len(),
        pages[freed_source_index(pages, vs, ve, m)].ppn == frames_in_range(pages, vs, ve)[m],
        in_vpn_range(pages[freed_source_index(pages, vs, ve, m)], vs, ve),
    decreases pages.len(),
{
    if in_vpn_range(pages[0], vs, ve) {
        if m > 0 {
            lemma_freed_source(pages.drop_first(), vs, ve, m - 1);
        }
    } else {
        lemma_freed_source(pages.drop_first(), vs, ve, m);
    }
}

/// Later freed frames come from strictly later page-table entries.
pub proof fn lemma_freed_source_increasing(
    pages: Seq<PageMapping>,
    vs: int,
    ve: int,
    m1: int,
    m2: int,
)
    requires
        0 <= m1 < m2 < frames_in_range(pages, vs, ve).len(),
    ensures
        freed_source_index(pages, vs, ve, m1) < freed_source_index(pages, vs, ve, m2),
    decreases pages.len(),
{
    if in_vpn_range(pages[0], vs, ve) {
        if m1 == 0 {
            lemma_freed_source(pages.drop_first(), vs, ve, m2 - 1);
        } else {
            lemma_freed_source_increasing(pages.drop_first(), vs, ve, m1 - 1, m2 - 1);
        }
    } else {
        lemma_freed_source_increasing(pages.drop_first(), vs, ve, m1, m2);
    }
}

/// The entry kept at position `m` is the out-of-range page-table entry at
/// its source index.
pub proof fn lemma_kept_source(pages: Seq<PageMapping>, vs: int, ve: int, m: int)
    requires
        0 <= m < remove_range(pages, vs, ve).len(),
    ensures
        0 <= kept_source_index(pages, vs, ve, m) < pages.len(),
        pages[kept_source_index(pages, vs, ve, m)] == remove_range(pages, vs, ve)[m],
        !in_vpn_range(pages[kept_source_index(pages, vs, ve, m)], vs, ve),
    decreases pages.len(),
{
    if !in_vpn_range(pages[0], vs, ve) {
        if m > 0 {
            lemma_kept_source(pages.drop_first(), vs, ve, m - 1);
        }
    } else {
        lemma_kept_source(pages.drop_first(), vs, ve, m);
    }
}

/// Later kept entries come from strictly later page-table entries.
pub proof fn lemma_kept_source_increasing(
    pages: Seq<PageMapping>,
    vs: int,
    ve: int,
    m1: int,
    m2: int,
)
    requires
        0 <= m1 < m2 < remove_range(pages, vs, ve).len(),
    ensures
        kept_source_index(pages, vs, ve, m1) < kept_source_index(pages, vs, ve, m2),
    decreases pages.len(),
{
    if !in_vpn_range(pages[0], vs, ve) {
        if m1 == 0 {
            lemma_kept_source(pages.drop_first(), vs, ve, m2 - 1);
        } else {
            lemma_kept_source_increasing(pages.drop_first(), vs, ve, m1 - 1, m2 - 1);
        }
    } else {
        lemma_kept_source_increasing(pages.drop_first(), vs, ve, m1, m2);
    }
}

} // verus!
