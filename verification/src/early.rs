//! The early-boot allocator: up to eight regions, each served from both
//! ends, with allocator-wide counters kept beside the regions.
//!
//! Regions fill the slots in order and are never removed. A request goes to
//! the first region, in slot order, that can serve it. Each allocator-wide
//! counter is the sum of that counter over the regions and is brought up to
//! date by every operation that changes a region.
//!
//! Byte deallocation is a hard usage contract: only the most recent byte
//! allocation of a region can be given back, so blocks must be released in
//! the reverse of the order in which they were taken. Pages are never
//! reclaimed.

use crate::align::{is_aligned, lemma_align_up_is_least, padding, PAGE_SIZE};
use crate::region::{
    lemma_allocation_sequence, lemma_padded_total_prefix, Blockmemory, ByteRequest, RegionView,
};
use vstd::arithmetic::div_mod::{lemma_fundamental_div_mod, lemma_fundamental_div_mod_converse};
use vstd::arithmetic::power2::pow2;
use vstd::prelude::*;

verus! {

/// Number of region slots of an allocator.
pub const MAX_BLOCKS: usize = 8;

/// Why an operation of the allocator failed.
#[derive(Debug, Clone, Copy, PartialEq, Eq, Structural)]
pub enum AllocError {
    /// Every region slot is taken.
    CapacityExceeded,
    /// No region can serve the request.
    OutOfMemory,
    /// The allocator holds no region yet.
    PreconditionViolation,
}

/// The counters that a region, and the allocator as a whole, report.
pub enum Counter {
    TotalBytes,
    UsedBytes,
    AvailableBytes,
    TotalPages,
    UsedPages,
    AvailablePages,
}

impl RegionView {
    /// The value of one counter of the region.
    pub open spec fn counter(self, c: Counter) -> nat {
        match c {
            Counter::TotalBytes => self.total_bytes(),
            Counter::UsedBytes => self.used_bytes(),
            Counter::AvailableBytes => self.available_bytes(),
            Counter::TotalPages => self.total_pages(),
            Counter::UsedPages => self.used_pages(),
            Counter::AvailablePages => self.available_pages(),
        }
    }
}

/// The sum of one counter over a sequence of regions.
pub open spec fn sum_over(s: Seq<RegionView>, c: Counter) -> nat
    decreases s.len(),
{
    if s.len() == 0 {
        0
    } else {
        sum_over(s.drop_last(), c) + s.last().counter(c)
    }
}

/// The index of the first region at or after `from` that satisfies `p`.
pub open spec fn first_where(s: Seq<RegionView>, p: spec_fn(RegionView) -> bool, from: nat)
    -> Option<nat>
    decreases s.len() - from,
{
    if from >= s.len() {
        None
    } else if p(s[from as int]) {
        Some(from)
    } else {
        first_where(s, p, from + 1)
    }
}

/// Regions that can serve a byte allocation.
pub open spec fn can_fit(size: nat, align: nat) -> spec_fn(RegionView) -> bool {
    |r: RegionView| r.fits(size, align)
}

/// Regions that can serve a page allocation.
pub open spec fn can_fit_pages(count: nat, align_log2: nat) -> spec_fn(RegionView) -> bool {
    |r: RegionView| r.fits_pages(count, align_log2)
}

/// Regions whose most recent byte allocation is the `size` bytes at `addr`.
pub open spec fn owning(addr: nat, size: nat) -> spec_fn(RegionView) -> bool {
    |r: RegionView| r.owns_last(addr, size)
}

/// The state of an allocator: its regions in slot order, and the index of
/// the current region, which is the one that was made last.
pub struct AllocatorView {
    pub regions: Seq<RegionView>,
    pub current: Option<nat>,
}

impl AllocatorView {
    /// At most eight regions, each with its cursors in order, and a current
    /// region exactly when there is a region.
    pub open spec fn wf(self) -> bool {
        &&& self.regions.len() <= MAX_BLOCKS
        &&& forall|i: int| 0 <= i < self.regions.len() ==> (#[trigger] self.regions[i]).wf()
        &&& self.current is None <==> self.regions.len() == 0
        &&& self.current matches Some(c) ==> c < self.regions.len()
    }

    /// The allocator before any region is given to it.
    pub open spec fn empty() -> Self {
        AllocatorView { regions: Seq::empty(), current: None }
    }

    /// The sum of one counter over all regions.
    pub open spec fn sum(self, c: Counter) -> nat {
        sum_over(self.regions, c)
    }

    /// Bytes in the byte areas of all regions.
    pub open spec fn total_bytes(self) -> nat {
        self.sum(Counter::TotalBytes)
    }

    /// Bytes handed out by byte allocations, over all regions.
    pub open spec fn used_bytes(self) -> nat {
        self.sum(Counter::UsedBytes)
    }

    /// Bytes between the cursors, over all regions.
    pub open spec fn available_bytes(self) -> nat {
        self.sum(Counter::AvailableBytes)
    }

    /// Whole pages in the page areas of all regions.
    pub open spec fn total_pages(self) -> nat {
        self.sum(Counter::TotalPages)
    }

    /// Pages handed out by page allocations, over all regions.
    pub open spec fn used_pages(self) -> nat {
        self.sum(Counter::UsedPages)
    }

    /// Whole pages between the cursors, over all regions.
    pub open spec fn available_pages(self) -> nat {
        self.sum(Counter::AvailablePages)
    }

    /// The state with region `i` replaced.
    pub open spec fn with_region(self, i: nat, r: RegionView) -> Self {
        AllocatorView { regions: self.regions.update(i as int, r), ..self }
    }

    /// The state after a fresh region of `size` bytes at `start` is put in
    /// slot 0, in place of the region that was there, if any.
    pub open spec fn after_init(self, start: nat, size: nat) -> Self {
        let r = RegionView::fresh(start, size);
        AllocatorView {
            regions: if self.regions.len() == 0 {
                seq![r]
            } else {
                self.regions.update(0, r)
            },
            current: Some(0),
        }
    }

    /// The state after a fresh region of `size` bytes at `start` is put in
    /// the first free slot. Nothing changes when every slot is taken.
    pub open spec fn after_add_memory(self, start: nat, size: nat) -> Self {
        if self.regions.len() < MAX_BLOCKS {
            AllocatorView {
                regions: self.regions.push(RegionView::fresh(start, size)),
                current: Some(self.regions.len()),
            }
        } else {
            self
        }
    }

    /// The first region, in slot order, that can serve a byte allocation.
    pub open spec fn first_fit(self, size: nat, align: nat) -> Option<nat> {
        first_where(self.regions, can_fit(size, align), 0)
    }

    /// What a byte allocation returns: the aligned address in the first
    /// region that fits, or the reason why there is none.
    pub open spec fn allocate_result(self, size: nat, align: nat) -> Result<nat, AllocError> {
        match self.first_fit(size, align) {
            Some(i) => Ok(self.regions[i as int].alloc_addr(align)),
            None => if self.regions.len() == 0 {
                Err(AllocError::PreconditionViolation)
            } else {
                Err(AllocError::OutOfMemory)
            },
        }
    }

    /// The state after a byte allocation.
    pub open spec fn after_allocate(self, size: nat, align: nat) -> Self {
        match self.first_fit(size, align) {
            Some(i) => self.with_region(i, self.regions[i as int].after_alloc(size, align)),
            None => self,
        }
    }

    /// The state after byte allocations for the requests, one after the
    /// other.
    pub open spec fn after_requests(self, reqs: Seq<ByteRequest>) -> Self
        decreases reqs.len(),
    {
        if reqs.len() == 0 {
            self
        } else {
            self.after_requests(reqs.drop_last()).after_allocate(
                reqs.last().size,
                reqs.last().align,
            )
        }
    }

    /// The first region, in slot order, whose most recent byte allocation
    /// is the `size` bytes at `addr`.
    pub open spec fn owner_of(self, addr: nat, size: nat) -> Option<nat> {
        first_where(self.regions, owning(addr, size), 0)
    }

    /// The state after the `size` bytes at `addr` are given back.
    pub open spec fn after_dealloc(self, addr: nat, size: nat) -> Self {
        match self.owner_of(addr, size) {
            Some(i) => self.with_region(i, self.regions[i as int].after_dealloc(size)),
            None => self,
        }
    }

    /// The first region, in slot order, that can serve a page allocation.
    pub open spec fn first_fit_pages(self, count: nat, align_log2: nat) -> Option<nat> {
        first_where(self.regions, can_fit_pages(count, align_log2), 0)
    }

    /// What a page allocation returns: the new page cursor of the first
    /// region that fits, or the reason why there is none.
    pub open spec fn alloc_pages_result(self, count: nat, align_log2: nat) -> Result<
        nat,
        AllocError,
    > {
        match self.first_fit_pages(count, align_log2) {
            Some(i) => Ok(self.regions[i as int].after_alloc_pages(count).page_cursor),
            None => if self.regions.len() == 0 {
                Err(AllocError::PreconditionViolation)
            } else {
                Err(AllocError::OutOfMemory)
            },
        }
    }

    /// The state after a page allocation.
    pub open spec fn after_alloc_pages(self, count: nat, align_log2: nat) -> Self {
        match self.first_fit_pages(count, align_log2) {
            Some(i) => self.with_region(i, self.regions[i as int].after_alloc_pages(count)),
            None => self,
        }
    }
}

/// `first_where` finds a region that satisfies the predicate and that no
/// satisfying region precedes; it finds none only if there is none.
pub proof fn lemma_first_where(s: Seq<RegionView>, p: spec_fn(RegionView) -> bool, from: nat)
    ensures
        match first_where(s, p, from) {
            Some(i) => {
                &&& from <= i < s.len()
                &&& p(s[i as int])
                &&& forall|j: int| from <= j < i ==> !p(#[trigger] s[j])
            },
            None => forall|j: int| from <= j < s.len() ==> !p(#[trigger] s[j]),
        },
    decreases s.len() - from,
{
    if from < s.len() && !p(s[from as int]) {
        lemma_first_where(s, p, from + 1);
    }
}

/// Appending a region adds its counter to the sum.
pub proof fn lemma_sum_push(s: Seq<RegionView>, r: RegionView, c: Counter)
    ensures
        sum_over(s.push(r), c) == sum_over(s, c) + r.counter(c),
{
    assert(s.push(r).drop_last() =~= s);
}

/// Replacing a region exchanges its counter in the sum.
pub proof fn lemma_sum_update(s: Seq<RegionView>, i: int, r: RegionView, c: Counter)
    requires
        0 <= i < s.len(),
    ensures
        sum_over(s.update(i, r), c) == sum_over(s, c) - s[i].counter(c) + r.counter(c),
        s[i].counter(c) <= sum_over(s, c),
    decreases s.len(),
{
    if i == s.len() - 1 {
        assert(s.update(i, r).drop_last() =~= s.drop_last());
    } else {
        lemma_sum_update(s.drop_last(), i, r, c);
        assert(s.update(i, r).drop_last() =~= s.drop_last().update(i, r));
    }
}

/// A counter that is nowhere above another sums to no more than it.
pub proof fn lemma_sum_le(s: Seq<RegionView>, c1: Counter, c2: Counter)
    requires
        forall|i: int| 0 <= i < s.len() ==> (#[trigger] s[i]).counter(c1) <= s[i].counter(c2),
    ensures
        sum_over(s, c1) <= sum_over(s, c2),
    decreases s.len(),
{
    if s.len() > 0 {
        lemma_sum_le(s.drop_last(), c1, c2);
    }
}

/// A counter that is nowhere above `bound` sums to at most `bound` per
/// region.
pub proof fn lemma_sum_bounded(s: Seq<RegionView>, c: Counter, bound: nat)
    requires
        forall|i: int| 0 <= i < s.len() ==> (#[trigger] s[i]).counter(c) <= bound,
    ensures
        sum_over(s, c) <= s.len() * bound,
    decreases s.len(),
{
    if s.len() > 0 {
        lemma_sum_bounded(s.drop_last(), c, bound);
        assert((s.len() - 1) * bound + bound == s.len() * bound) by (nonlinear_arith);
    }
}

/// Two counters that everywhere add up to a third do so in sum.
pub proof fn lemma_sum_add(s: Seq<RegionView>, c1: Counter, c2: Counter, c3: Counter)
    requires
        forall|i: int|
            0 <= i < s.len() ==> (#[trigger] s[i]).counter(c1) + s[i].counter(c2) == s[i].counter(
                c3,
            ),
    ensures
        sum_over(s, c1) + sum_over(s, c2) == sum_over(s, c3),
    decreases s.len(),
{
    if s.len() > 0 {
        lemma_sum_add(s.drop_last(), c1, c2, c3);
    }
}

/// In every state the used and the available bytes add up to the total
/// bytes, and the used and the available pages to the total pages.
pub proof fn lemma_counters_add_up(a: AllocatorView)
    requires
        a.wf(),
    ensures
        a.used_bytes() + a.available_bytes() == a.total_bytes(),
        a.used_pages() + a.available_pages() == a.total_pages(),
{
    lemma_sum_add(a.regions, Counter::UsedBytes, Counter::AvailableBytes, Counter::TotalBytes);
    assert forall|i: int| 0 <= i < a.regions.len() implies (#[trigger] a.regions[i]).counter(
        Counter::UsedPages,
    ) + a.regions[i].counter(Counter::AvailablePages) == a.regions[i].counter(
        Counter::TotalPages,
    ) by {
        let r = a.regions[i];
        let page = PAGE_SIZE as int;
        let top = r.end - r.page_cursor;
        let gap = r.page_cursor - r.byte_cursor;
        lemma_fundamental_div_mod(top, page);
        lemma_fundamental_div_mod(gap, page);
        lemma_fundamental_div_mod_converse(top + gap, page, top / page + gap / page, gap % page);
    }
    lemma_sum_add(a.regions, Counter::UsedPages, Counter::AvailablePages, Counter::TotalPages);
}

/// After `init` the region in slot 0 is fresh and current. On an allocator
/// without regions the counters are those of that region alone: `size`
/// bytes in total and available, none used.
pub proof fn lemma_init_accounting(a: AllocatorView, start: nat, size: nat)
    requires
        a.wf(),
    ensures
        ({
            let b = a.after_init(start, size);
            &&& b.wf()
            &&& b.regions.len() >= 1
            &&& b.regions[0] == RegionView::fresh(start, size)
            &&& b.current == Some(0nat)
            &&& a.regions.len() == 0 ==> {
                &&& b.total_bytes() == size
                &&& b.used_bytes() == 0
                &&& b.available_bytes() == size
                &&& b.total_pages() == size / (PAGE_SIZE as nat)
                &&& b.used_pages() == 0
                &&& b.available_pages() == size / (PAGE_SIZE as nat)
            }
            &&& a.regions.len() > 0 ==> {
                &&& b.total_bytes() == a.total_bytes() - a.regions[0].total_bytes() + size
                &&& b.used_bytes() == a.used_bytes() - a.regions[0].used_bytes()
                &&& b.available_bytes() == a.available_bytes() - a.regions[0].available_bytes()
                    + size
            }
        }),
{
    let r = RegionView::fresh(start, size);
    let b = a.after_init(start, size);
    if a.regions.len() == 0 {
        assert(a.regions.push(r) =~= seq![r]);
        lemma_sum_push(a.regions, r, Counter::TotalBytes);
        lemma_sum_push(a.regions, r, Counter::UsedBytes);
        lemma_sum_push(a.regions, r, Counter::AvailableBytes);
        lemma_sum_push(a.regions, r, Counter::TotalPages);
        lemma_sum_push(a.regions, r, Counter::UsedPages);
        lemma_sum_push(a.regions, r, Counter::AvailablePages);
    } else {
        lemma_sum_update(a.regions, 0, r, Counter::TotalBytes);
        lemma_sum_update(a.regions, 0, r, Counter::UsedBytes);
        lemma_sum_update(a.regions, 0, r, Counter::AvailableBytes);
        assert forall|j: int| 0 <= j < b.regions.len() implies (#[trigger] b.regions[j]).wf() by {
            if j != 0 {
                assert(b.regions[j] == a.regions[j]);
            }
        }
    }
}

/// While a slot is free, `add_memory` appends a fresh region, which adds its
/// size to the total and the available bytes and leaves the used bytes.
/// With all eight slots taken it changes nothing.
pub proof fn lemma_add_memory_accounting(a: AllocatorView, start: nat, size: nat)
    requires
        a.wf(),
    ensures
        ({
            let b = a.after_add_memory(start, size);
            &&& b.wf()
            &&& a.regions.len() == MAX_BLOCKS ==> b == a
            &&& a.regions.len() < MAX_BLOCKS ==> {
                &&& b.regions.len() == a.regions.len() + 1
                &&& b.regions.last() == RegionView::fresh(start, size)
                &&& b.current == Some(a.regions.len())
                &&& b.total_bytes() == a.total_bytes() + size
                &&& b.used_bytes() == a.used_bytes()
                &&& b.available_bytes() == a.available_bytes() + size
            }
        }),
{
    let r = RegionView::fresh(start, size);
    lemma_sum_push(a.regions, r, Counter::TotalBytes);
    lemma_sum_push(a.regions, r, Counter::UsedBytes);
    lemma_sum_push(a.regions, r, Counter::AvailableBytes);
}

/// Byte allocations whose padded sizes together do not exceed the bytes
/// available in the first region are all served by that region: the other
/// regions stay as they were, and each call returns the address that the
/// first region alone would return.
pub proof fn lemma_first_region_serves(a: AllocatorView, reqs: Seq<ByteRequest>)
    requires
        a.wf(),
        a.regions.len() > 0,
        a.regions[0].padded_total(reqs) <= a.regions[0].available_bytes(),
    ensures
        a.after_requests(reqs) == a.with_region(0, a.regions[0].after_requests(reqs)),
        forall|i: int|
            0 <= i < reqs.len() ==> (#[trigger] a.after_requests(reqs.take(i))).allocate_result(
                reqs[i].size,
                reqs[i].align,
            ) == Ok::<nat, AllocError>(a.regions[0].address_of(reqs, i)),
{
    let r = a.regions[0];
    lemma_allocation_sequence(r, reqs);
    lemma_served_by_first(a, reqs);
    assert forall|i: int| 0 <= i < reqs.len() implies (#[trigger] a.after_requests(
        reqs.take(i),
    )).allocate_result(reqs[i].size, reqs[i].align) == Ok::<nat, AllocError>(
        r.address_of(reqs, i),
    ) by {
        lemma_padded_total_prefix(r, reqs, i);
        lemma_served_by_first(a, reqs.take(i));
        assert(r.after_requests(reqs.take(i)).fits(reqs[i].size, reqs[i].align));
    }
}

/// The state after requests that the first region can serve together.
proof fn lemma_served_by_first(a: AllocatorView, reqs: Seq<ByteRequest>)
    requires
        a.wf(),
        a.regions.len() > 0,
        a.regions[0].padded_total(reqs) <= a.regions[0].available_bytes(),
    ensures
        a.after_requests(reqs) == a.with_region(0, a.regions[0].after_requests(reqs)),
    decreases reqs.len(),
{
    let r = a.regions[0];
    if reqs.len() == 0 {
        assert(a.regions.update(0, r) =~= a.regions);
    } else {
        let init = reqs.drop_last();
        lemma_served_by_first(a, init);
        lemma_allocation_sequence(r, reqs);
        assert(reqs.take(reqs.len() - 1) =~= init);
        let mid = a.after_requests(init);
        assert(mid.regions[0] == r.after_requests(init));
        assert(mid.regions[0].fits(reqs.last().size, reqs.last().align));
        assert(mid.regions.update(0, r.after_requests(reqs)) =~= a.regions.update(
            0,
            r.after_requests(reqs),
        ));
    }
}

/// A byte allocation fails with `OutOfMemory`, and leaves the state as it
/// was, when the allocator holds a region and the size asked for exceeds
/// the available bytes of every region.
pub proof fn lemma_allocate_out_of_memory(a: AllocatorView, size: nat, align: nat)
    requires
        a.wf(),
        a.regions.len() > 0,
        forall|i: int|
            0 <= i < a.regions.len() ==> size > (#[trigger] a.regions[i]).available_bytes(),
    ensures
        a.allocate_result(size, align) == Err::<nat, AllocError>(AllocError::OutOfMemory),
        a.after_allocate(size, align) == a,
{
    lemma_first_where(a.regions, can_fit(size, align), 0);
}

/// A byte allocation that succeeds keeps the state well formed, returns an
/// address that is a multiple of the alignment, and charges the size and the
/// padding to the used and the available bytes; the byte total stays.
pub proof fn lemma_allocate_accounting(a: AllocatorView, size: nat, align: nat)
    requires
        a.wf(),
        a.first_fit(size, align) is Some,
    ensures
        ({
            let i = a.first_fit(size, align)->Some_0;
            let r = a.regions[i as int];
            let b = a.after_allocate(size, align);
            &&& i < a.regions.len()
            &&& r.fits(size, align)
            &&& b.wf()
            &&& a.allocate_result(size, align) == Ok::<nat, AllocError>(r.alloc_addr(align))
            &&& is_aligned(r.alloc_addr(align), align)
            &&& r.byte_cursor <= r.alloc_addr(align)
            &&& r.alloc_addr(align) + size <= r.page_cursor
            &&& b.used_bytes() == a.used_bytes() + r.padded_size(size, align)
            &&& b.available_bytes() == a.available_bytes() - r.padded_size(size, align)
            &&& b.total_bytes() == a.total_bytes()
        }),
{
    lemma_first_where(a.regions, can_fit(size, align), 0);
    let i = a.first_fit(size, align)->Some_0;
    let r = a.regions[i as int];
    let r2 = r.after_alloc(size, align);
    if align > 0 {
        lemma_align_up_is_least(r.byte_cursor, align);
    }
    lemma_sum_update(a.regions, i as int, r2, Counter::UsedBytes);
    lemma_sum_update(a.regions, i as int, r2, Counter::AvailableBytes);
    lemma_sum_update(a.regions, i as int, r2, Counter::TotalBytes);
    let b = a.after_allocate(size, align);
    assert forall|j: int| 0 <= j < b.regions.len() implies (#[trigger] b.regions[j]).wf() by {
        if j != i {
            assert(b.regions[j] == a.regions[j]);
        }
    }
}

/// Giving a block back right after it was taken is allowed, and leaves the
/// used and the available bytes where they were but for the padding that
/// preceded the block, which stays charged. Where the block needed no
/// padding, both counters are back at their values before the allocation.
pub proof fn lemma_allocate_dealloc_round_trip(a: AllocatorView, size: nat, align: nat)
    requires
        a.wf(),
        a.first_fit(size, align) is Some,
    ensures
        ({
            let i = a.first_fit(size, align)->Some_0;
            let pad = padding(a.regions[i as int].byte_cursor, align);
            let addr = a.regions[i as int].alloc_addr(align);
            let b = a.after_allocate(size, align);
            let c = b.after_dealloc(addr, size);
            &&& b.owner_of(addr, size) is Some
            &&& c.wf()
            &&& c.used_bytes() == a.used_bytes() + pad
            &&& c.available_bytes() == a.available_bytes() - pad
            &&& c.total_bytes() == a.total_bytes()
            &&& pad == 0 ==> c.used_bytes() == a.used_bytes() && c.available_bytes()
                == a.available_bytes()
        }),
{
    lemma_allocate_accounting(a, size, align);
    let i = a.first_fit(size, align)->Some_0;
    let addr = a.regions[i as int].alloc_addr(align);
    let b = a.after_allocate(size, align);
    lemma_first_where(b.regions, owning(addr, size), 0);
    assert(owning(addr, size)(b.regions[i as int]));
    let j = b.owner_of(addr, size)->Some_0;
    let r2 = b.regions[j as int].after_dealloc(size);
    lemma_sum_update(b.regions, j as int, r2, Counter::UsedBytes);
    lemma_sum_update(b.regions, j as int, r2, Counter::AvailableBytes);
    lemma_sum_update(b.regions, j as int, r2, Counter::TotalBytes);
    let c = b.after_dealloc(addr, size);
    assert forall|k: int| 0 <= k < c.regions.len() implies (#[trigger] c.regions[k]).wf() by {
        if k != j {
            assert(c.regions[k] == b.regions[k]);
        }
    }
}

/// A page allocation that succeeds keeps the state well formed, returns the
/// new page cursor of the region that served it, which lies the pages'
/// bytes below the old one and is a multiple of the alignment, and moves
/// exactly that many pages from available to used.
pub proof fn lemma_alloc_pages_accounting(a: AllocatorView, count: nat, align_log2: nat)
    requires
        a.wf(),
        a.first_fit_pages(count, align_log2) is Some,
    ensures
        ({
            let i = a.first_fit_pages(count, align_log2)->Some_0;
            let r = a.regions[i as int];
            let b = a.after_alloc_pages(count, align_log2);
            &&& i < a.regions.len()
            &&& r.fits_pages(count, align_log2)
            &&& b.wf()
            &&& a.alloc_pages_result(count, align_log2) == Ok::<nat, AllocError>(
                (r.page_cursor - count * PAGE_SIZE) as nat,
            )
            &&& is_aligned((r.page_cursor - count * PAGE_SIZE) as nat, pow2(align_log2))
            &&& r.byte_cursor <= r.page_cursor - count * PAGE_SIZE
            &&& b.available_pages() == a.available_pages() - count
            &&& b.used_pages() == a.used_pages() + count
            &&& b.total_pages() == a.total_pages()
            &&& b.used_bytes() == a.used_bytes()
            &&& b.available_bytes() == a.available_bytes() - count * PAGE_SIZE
        }),
{
    lemma_first_where(a.regions, can_fit_pages(count, align_log2), 0);
    let i = a.first_fit_pages(count, align_log2)->Some_0;
    let r = a.regions[i as int];
    let r2 = r.after_alloc_pages(count);
    let page = PAGE_SIZE as int;
    let gap = r.page_cursor - r.byte_cursor;
    let top = r.end - r.page_cursor;
    assert((gap - count * page) / page == gap / page - count) by {
        lemma_fundamental_div_mod(gap, page);
        lemma_fundamental_div_mod_converse(
            gap - count * page,
            page,
            gap / page - count,
            gap % page,
        );
    }
    assert((top + count * page) / page == top / page + count && (top + count * page) % page == 0)
        by {
        lemma_fundamental_div_mod(top, page);
        lemma_fundamental_div_mod_converse(top + count * page, page, top / page + count, 0);
    }
    lemma_sum_update(a.regions, i as int, r2, Counter::UsedBytes);
    lemma_sum_update(a.regions, i as int, r2, Counter::AvailableBytes);
    lemma_sum_update(a.regions, i as int, r2, Counter::TotalPages);
    lemma_sum_update(a.regions, i as int, r2, Counter::UsedPages);
    lemma_sum_update(a.regions, i as int, r2, Counter::AvailablePages);
    let b = a.after_alloc_pages(count, align_log2);
    assert forall|j: int| 0 <= j < b.regions.len() implies (#[trigger] b.regions[j]).wf() by {
        if j != i {
            assert(b.regions[j] == a.regions[j]);
        }
    }
}

/// On an allocator whose only region is fresh, pages that fit in the region
/// and whose base is a multiple of the alignment come from the region's
/// end: the base returned lies the pages' bytes below the end.
pub proof fn lemma_alloc_pages_fresh(start: nat, size: nat, count: nat, align_log2: nat)
    requires
        count * PAGE_SIZE <= size,
        is_aligned((start + size - count * PAGE_SIZE) as nat, pow2(align_log2)),
    ensures
        ({
            let a = AllocatorView::empty().after_init(start, size);
            let b = a.after_alloc_pages(count, align_log2);
            &&& a.alloc_pages_result(count, align_log2) == Ok::<nat, AllocError>(
                (start + size - count * PAGE_SIZE) as nat,
            )
            &&& b.available_pages() == a.available_pages() - count
            &&& b.used_pages() == count
        }),
{
    lemma_init_accounting(AllocatorView::empty(), start, size);
    let a = AllocatorView::empty().after_init(start, size);
    assert(a.regions[0].fits_pages(count, align_log2));
    assert(can_fit_pages(count, align_log2)(a.regions[0]));
    lemma_alloc_pages_accounting(a, count, align_log2);
}

/// Early memory allocator, for use before the byte allocator and the page
/// allocator proper can work. Each region is a double-ended range: bytes are
/// taken forward from its start, pages backward from its end.
#[derive(Debug, Clone, Copy)]
pub struct EarlyAllocator {
    block: [Option<Blockmemory>; MAX_BLOCKS],
    currentid: Option<usize>,
    total_bytes: usize,
    used_bytes: usize,
    available_bytes: usize,
    total_pages: usize,
    used_pages: usize,
    available_pages: usize,
}

impl View for EarlyAllocator {
    type V = AllocatorView;

    closed spec fn view(&self) -> AllocatorView {
        AllocatorView {
            regions: Seq::new(self.live() as nat, |i: int| self.block[i].unwrap()@),
            current: match self.currentid {
                Some(c) => Some(c as nat),
                None => None,
            },
        }
    }
}

impl EarlyAllocator {
    /// Exactly the first `n` slots hold a region.
    spec fn is_prefix(&self, n: int) -> bool {
        &&& 0 <= n <= MAX_BLOCKS
        &&& forall|i: int| 0 <= i < n ==> (#[trigger] self.block[i]) is Some
        &&& forall|i: int| n <= i < MAX_BLOCKS ==> (#[trigger] self.block[i]) is None
    }

    /// The number of slots that hold a region.
    spec fn live(&self) -> int {
        choose|n: int| self.is_prefix(n)
    }

    /// The regions fill a prefix of the slots, each region is well formed,
    /// and each allocator-wide counter is the sum of that counter over the
    /// regions.
    pub closed spec fn wf(&self) -> bool {
        &&& exists|n: int| self.is_prefix(n)
        &&& forall|i: int| 0 <= i < self.live() ==> (#[trigger] self.block[i]).unwrap().wf()
        &&& self@.wf()
        &&& self.total_bytes == self@.total_bytes()
        &&& self.used_bytes == self@.used_bytes()
        &&& self.available_bytes == self@.available_bytes()
        &&& self.total_pages == self@.total_pages()
        &&& self.used_pages == self@.used_pages()
        &&& self.available_pages == self@.available_pages()
    }

    /// A well-formed allocator has a well-formed state whose byte total
    /// fits in a word.
    pub proof fn lemma_wf(&self)
        requires
            self.wf(),
        ensures
            self@.wf(),
            self@.total_bytes() <= usize::MAX,
    {
    }

    proof fn lemma_live_unique(&self, n: int)
        requires
            self.is_prefix(n),
        ensures
            self.live() == n,
    {
        let m = self.live();
        assert(self.is_prefix(m));
        if m < n {
            assert(self.block[m] is Some);
        }
        if n < m {
            assert(self.block[n] is Some);
        }
    }

    /// What holds of the regions of a well-formed allocator.
    proof fn lemma_regions(&self)
        requires
            self.wf(),
        ensures
            self.is_prefix(self.live()),
            self@.regions.len() == self.live(),
            forall|i: int|
                0 <= i < self.live() ==> {
                    &&& (#[trigger] self.block[i]) is Some
                    &&& self.block[i].unwrap().wf()
                    &&& self@.regions[i] == self.block[i].unwrap()@
                    &&& self@.regions[i].wf()
                    &&& self@.regions[i].end <= usize::MAX
                },
    {
        assert forall|i: int| 0 <= i < self.live() implies {
            &&& (#[trigger] self.block[i]) is Some
            &&& self.block[i].unwrap().wf()
            &&& self@.regions[i] == self.block[i].unwrap()@
            &&& self@.regions[i].wf()
            &&& self@.regions[i].end <= usize::MAX
        } by {
            self.block[i].unwrap().lemma_wf();
        }
    }

    /// Makes an allocator without regions.
    pub fn new() -> (a: Self)
        ensures
            a.wf(),
            a@ == AllocatorView::empty(),
    {
        let a = EarlyAllocator {
            block: [None, None, None, None, None, None, None, None],
            currentid: None,
            total_bytes: 0,
            used_bytes: 0,
            available_bytes: 0,
            total_pages: 0,
            used_pages: 0,
            available_pages: 0,
        };
        proof {
            assert(a.is_prefix(0));
            a.lemma_live_unique(0);
            assert(a@.regions =~= Seq::empty());
        }
        a
    }

    /// The number of regions that the allocator holds.
    pub fn region_count(&self) -> (n: usize)
        requires
            self.wf(),
        ensures
            n == self@.regions.len(),
            n <= MAX_BLOCKS,
    {
        proof {
            self.lemma_regions();
        }
        let mut n: usize = 0;
        while n < MAX_BLOCKS
            invariant
                n <= MAX_BLOCKS,
                n <= self.live(),
                self.is_prefix(self.live()),
            decreases MAX_BLOCKS - n,
        {
            if self.block[n].is_none() {
                return n;
            }
            n = n + 1;
        }
        n
    }

    /// The slot of the current region: the one that was made last.
    pub fn current_region(&self) -> (c: Option<usize>)
        requires
            self.wf(),
        ensures
            match c {
                Some(i) => self@.current == Some(i as nat),
                None => self@.current is None,
            },
    {
        self.currentid
    }

    /// Puts region `r` in slot `i`, which holds a region already or is the
    /// first free slot, makes `current` the current region and brings the
    /// allocator-wide counters up to date.
    fn put(&mut self, i: usize, r: Blockmemory, current: usize)
        requires
            old(self).wf(),
            r.wf(),
            i < MAX_BLOCKS,
            i <= old(self)@.regions.len(),
            current < old(self)@.regions.len() || current == i,
            old(self)@.total_bytes() - (if i < old(self)@.regions.len() {
                old(self)@.regions[i as int].total_bytes()
            } else {
                0
            }) + r@.total_bytes() <= usize::MAX,
        ensures
            final(self).wf(),
            final(self)@.regions == (if i < old(self)@.regions.len() {
                old(self)@.regions.update(i as int, r@)
            } else {
                old(self)@.regions.push(r@)
            }),
            final(self)@.current == Some(current as nat),
    {
        let ghost before = old(self)@.regions;
        let ghost after = if i < before.len() {
            before.update(i as int, r@)
        } else {
            before.push(r@)
        };
        let ghost n = self.live();
        let prev: Option<Blockmemory> = self.block[i];
        proof {
            self.lemma_regions();
            r.lemma_wf();
            assert(after.len() <= MAX_BLOCKS);
            assert forall|j: int| 0 <= j < after.len() implies {
                &&& (#[trigger] after[j]).wf()
                &&& after[j].end <= usize::MAX
            } by {
                if j != i {
                    assert(after[j] == before[j]);
                }
            }
            if i < before.len() {
                lemma_sum_update(before, i as int, r@, Counter::TotalBytes);
            } else {
                lemma_sum_push(before, r@, Counter::TotalBytes);
            }
            Self::lemma_sums(before, after, i as int, r@);
            assert(sum_over(after, Counter::TotalBytes) <= usize::MAX);
            assert(sum_over(after, Counter::UsedBytes) <= usize::MAX);
            assert(sum_over(after, Counter::AvailableBytes) <= usize::MAX);
            assert(sum_over(after, Counter::TotalPages) <= usize::MAX);
            assert(sum_over(after, Counter::UsedPages) <= usize::MAX);
            assert(sum_over(after, Counter::AvailablePages) <= usize::MAX);
            assert(prev is Some <==> i < before.len());
        }
        let mut total_bytes: usize = self.total_bytes;
        let mut used_bytes: usize = self.used_bytes;
        let mut available_bytes: usize = self.available_bytes;
        let mut total_pages: usize = self.total_pages;
        let mut used_pages: usize = self.used_pages;
        let mut available_pages: usize = self.available_pages;
        if let Some(p) = prev {
            total_bytes = total_bytes - p.total_bytes();
            used_bytes = used_bytes - p.used_bytes();
            available_bytes = available_bytes - p.available_bytes();
            total_pages = total_pages - p.total_pages();
            used_pages = used_pages - p.used_pages();
            available_pages = available_pages - p.available_pages();
        }
        self.block[i] = Some(r);
        self.currentid = Some(current);
        self.total_bytes = total_bytes + r.total_bytes();
        self.used_bytes = used_bytes + r.used_bytes();
        self.available_bytes = available_bytes + r.available_bytes();
        self.total_pages = total_pages + r.total_pages();
        self.used_pages = used_pages + r.used_pages();
        self.available_pages = available_pages + r.available_pages();
        proof {
            let m = if i < n { n } else { n + 1 };
            assert(self.is_prefix(m));
            self.lemma_live_unique(m);
            assert(self@.regions =~= after);
        }
    }

    /// Whether `init` may be called with this region: its end is an
    /// address, and the byte total that results fits in a word.
    pub fn can_init(&self, start: usize, size: usize) -> (b: bool)
        requires
            self.wf(),
        ensures
            b == (start + size <= usize::MAX && self@.after_init(
                start as nat,
                size as nat,
            ).total_bytes() <= usize::MAX),
    {
        proof {
            self.lemma_regions();
            lemma_init_accounting(self@, start as nat, size as nat);
            if self@.regions.len() > 0 {
                lemma_sum_update(
                    self@.regions,
                    0,
                    RegionView::fresh(start as nat, size as nat),
                    Counter::TotalBytes,
                );
            }
        }
        if size > usize::MAX - start {
            return false;
        }
        let replaced: usize = match self.block[0] {
            Some(r) => r.total_bytes(),
            None => 0,
        };
        size <= usize::MAX - (self.total_bytes - replaced)
    }

    /// Whether `add_memory` may be called with this region: its end is an
    /// address, and the byte total with it fits in a word.
    pub fn can_add_memory(&self, start: usize, size: usize) -> (b: bool)
        requires
            self.wf(),
        ensures
            b == (start + size <= usize::MAX && self@.total_bytes() + size <= usize::MAX),
    {
        size <= usize::MAX - start && size <= usize::MAX - self.total_bytes
    }

    /// Puts a fresh region of `size` bytes at `start` in slot 0 and makes it
    /// the current region. A region that was in slot 0 is discarded with
    /// everything allocated from it; the other regions stay. The
    /// allocator-wide counters follow.
    pub fn init(&mut self, start: usize, size: usize)
        requires
            old(self).wf(),
            start + size <= usize::MAX,
            old(self)@.after_init(start as nat, size as nat).total_bytes() <= usize::MAX,
        ensures
            final(self).wf(),
            final(self)@ == old(self)@.after_init(start as nat, size as nat),
    {
        let r = Blockmemory::new(start, size);
        proof {
            let s = old(self)@.regions;
            if s.len() > 0 {
                lemma_sum_update(s, 0, r@, Counter::TotalBytes);
            } else {
                assert(s.push(r@) =~= seq![r@]);
                lemma_sum_push(s, r@, Counter::TotalBytes);
            }
        }
        self.put(0, r, 0);
        proof {
            let s = old(self)@.regions;
            if s.len() == 0 {
                assert(s.push(r@) =~= seq![r@]);
            }
        }
    }

    /// Puts a fresh region of `size` bytes at `start` in the first free
    /// slot and makes it the current region. Fails with
    /// `CapacityExceeded`, and changes nothing, when all eight slots are
    /// taken.
    pub fn add_memory(&mut self, start: usize, size: usize) -> (res: Result<(), AllocError>)
        requires
            old(self).wf(),
            start + size <= usize::MAX,
            old(self)@.total_bytes() + size <= usize::MAX,
        ensures
            final(self).wf(),
            final(self)@ == old(self)@.after_add_memory(start as nat, size as nat),
            res is Ok <==> old(self)@.regions.len() < MAX_BLOCKS,
            res is Err ==> {
                &&& res == Err::<(), AllocError>(AllocError::CapacityExceeded)
                &&& *final(self) == *old(self)
            },
    {
        let n: usize = self.region_count();
        if n >= MAX_BLOCKS {
            return Err(AllocError::CapacityExceeded);
        }
        let r = Blockmemory::new(start, size);
        self.put(n, r, n);
        Ok(())
    }

    /// Takes `size` bytes at an address that is a multiple of `align` from
    /// the first region, in slot order, in which the bytes and the padding
    /// before them fit, and returns the address. Fails, and changes
    /// nothing, with `PreconditionViolation` when the allocator holds no
    /// region, and with `OutOfMemory` when no region fits.
    pub fn allocate(&mut self, size: usize, align: usize) -> (res: Result<usize, AllocError>)
        requires
            old(self).wf(),
        ensures
            final(self).wf(),
            final(self)@ == old(self)@.after_allocate(size as nat, align as nat),
            match res {
                Ok(addr) => old(self)@.allocate_result(size as nat, align as nat) == Ok::<
                    nat,
                    AllocError,
                >(addr as nat),
                Err(e) => old(self)@.allocate_result(size as nat, align as nat) == Err::<
                    nat,
                    AllocError,
                >(e) && *final(self) == *old(self),
            },
    {
        let n: usize = self.region_count();
        let ghost regions = self@.regions;
        let ghost fit = can_fit(size as nat, align as nat);
        let mut i: usize = 0;
        while i < n
            invariant
                i <= n,
                n == regions.len(),
                *self == *old(self),
                self.wf(),
                regions == self@.regions,
                fit == can_fit(size as nat, align as nat),
                first_where(regions, fit, i as nat) == first_where(regions, fit, 0),
            decreases n - i,
        {
            proof {
                self.lemma_regions();
            }
            if let Some(region) = self.block[i] {
                let mut r: Blockmemory = region;
                if let Some(addr) = r.allocate(size, align) {
                    let current: usize = match self.currentid {
                        Some(c) => c,
                        None => i,
                    };
                    proof {
                        lemma_sum_update(regions, i as int, r@, Counter::TotalBytes);
                    }
                    self.put(i, r, current);
                    return Ok(addr);
                }
            }
            i = i + 1;
        }
        if n == 0 {
            Err(AllocError::PreconditionViolation)
        } else {
            Err(AllocError::OutOfMemory)
        }
    }

    /// Whether the `size` bytes at `pos` are the most recent byte
    /// allocation of some region, so that `dealloc` may be called on them.
    pub fn can_dealloc(&self, pos: usize, size: usize) -> (b: bool)
        requires
            self.wf(),
        ensures
            b == (self@.owner_of(pos as nat, size as nat) is Some),
    {
        self.find_owner(pos, size).is_some()
    }

    /// The slot of the first region whose most recent byte allocation is
    /// the `size` bytes at `pos`.
    fn find_owner(&self, pos: usize, size: usize) -> (res: Option<usize>)
        requires
            self.wf(),
        ensures
            match res {
                Some(i) => self@.owner_of(pos as nat, size as nat) == Some(i as nat),
                None => self@.owner_of(pos as nat, size as nat) is None,
            },
    {
        let n: usize = self.region_count();
        let ghost regions = self@.regions;
        let ghost owns = owning(pos as nat, size as nat);
        let mut i: usize = 0;
        while i < n
            invariant
                i <= n,
                n == regions.len(),
                self.wf(),
                regions == self@.regions,
                owns == owning(pos as nat, size as nat),
                first_where(regions, owns, i as nat) == first_where(regions, owns, 0),
            decreases n - i,
        {
            proof {
                self.lemma_regions();
            }
            if let Some(region) = self.block[i] {
                if region.owns_last(pos, size) {
                    return Some(i);
                }
            }
            i = i + 1;
        }
        None
    }

    /// Gives back the `size` bytes at `pos`, which must be the most recent
    /// byte allocation of a region: that region's byte cursor and counters,
    /// and the allocator-wide counters, go back by `size`. Blocks must be
    /// given back in the reverse of the order in which they were taken;
    /// padding that preceded a block stays charged.
    #[allow(unused_variables)]
    pub fn dealloc(&mut self, pos: usize, size: usize, align: usize)
        requires
            old(self).wf(),
            old(self)@.owner_of(pos as nat, size as nat) is Some,
        ensures
            final(self).wf(),
            final(self)@ == old(self)@.after_dealloc(pos as nat, size as nat),
    {
        let found: Option<usize> = self.find_owner(pos, size);
        proof {
            self.lemma_regions();
            lemma_first_where(self@.regions, owning(pos as nat, size as nat), 0);
        }
        if let Some(i) = found {
            if let Some(region) = self.block[i] {
                let mut r: Blockmemory = region;
                r.dealloc(size);
                let current: usize = match self.currentid {
                    Some(c) => c,
                    None => i,
                };
                proof {
                    lemma_sum_update(self@.regions, i as int, r@, Counter::TotalBytes);
                }
                self.put(i, r, current);
            }
        }
    }

    /// Bytes in the byte areas of all regions, taken or still free.
    pub fn total_bytes(&self) -> (n: usize)
        requires
            self.wf(),
        ensures
            n == self@.total_bytes(),
    {
        self.total_bytes
    }

    /// Bytes handed out by byte allocations, padding included.
    pub fn used_bytes(&self) -> (n: usize)
        requires
            self.wf(),
        ensures
            n == self@.used_bytes(),
    {
        self.used_bytes
    }

    /// Bytes still free for byte allocations.
    pub fn available_bytes(&self) -> (n: usize)
        requires
            self.wf(),
        ensures
            n == self@.available_bytes(),
    {
        self.available_bytes
    }

    /// Takes `num_pages` pages from the top of the free area of the first
    /// region, in slot order, in which they fit with a base address that is
    /// a multiple of two to the power `align_pow2`, and returns that base
    /// address, which is the region's new page cursor. Fails, and changes
    /// nothing, with `PreconditionViolation` when the allocator holds no
    /// region, and with `OutOfMemory` when no region fits.
    pub fn alloc_pages(&mut self, num_pages: usize, align_pow2: usize) -> (res: Result<
        usize,
        AllocError,
    >)
        requires
            old(self).wf(),
        ensures
            final(self).wf(),
            final(self)@ == old(self)@.after_alloc_pages(num_pages as nat, align_pow2 as nat),
            match res {
                Ok(base) => old(self)@.alloc_pages_result(num_pages as nat, align_pow2 as nat)
                    == Ok::<nat, AllocError>(base as nat),
                Err(e) => old(self)@.alloc_pages_result(num_pages as nat, align_pow2 as nat)
                    == Err::<nat, AllocError>(e) && *final(self) == *old(self),
            },
    {
        let n: usize = self.region_count();
        let ghost regions = self@.regions;
        let ghost fit = can_fit_pages(num_pages as nat, align_pow2 as nat);
        let mut i: usize = 0;
        while i < n
            invariant
                i <= n,
                n == regions.len(),
                *self == *old(self),
                self.wf(),
                regions == self@.regions,
                fit == can_fit_pages(num_pages as nat, align_pow2 as nat),
                first_where(regions, fit, i as nat) == first_where(regions, fit, 0),
            decreases n - i,
        {
            proof {
                self.lemma_regions();
            }
            if let Some(region) = self.block[i] {
                let mut r: Blockmemory = region;
                if let Some(base) = r.alloc_pages(num_pages, align_pow2) {
                    let current: usize = match self.currentid {
                        Some(c) => c,
                        None => i,
                    };
                    proof {
                        lemma_sum_update(regions, i as int, r@, Counter::TotalBytes);
                    }
                    self.put(i, r, current);
                    return Ok(base);
                }
            }
            i = i + 1;
        }
        if n == 0 {
            Err(AllocError::PreconditionViolation)
        } else {
            Err(AllocError::OutOfMemory)
        }
    }

    /// Does nothing: pages handed out by this allocator are never
    /// reclaimed.
    #[allow(unused_variables)]
    pub fn dealloc_pages(&mut self, pos: usize, num_pages: usize)
        ensures
            *final(self) == *old(self),
    {
    }

    /// Whole pages in the page areas of all regions, taken or still free.
    pub fn total_pages(&self) -> (n: usize)
        requires
            self.wf(),
        ensures
            n == self@.total_pages(),
    {
        self.total_pages
    }

    /// Pages handed out by page allocations.
    pub fn used_pages(&self) -> (n: usize)
        requires
            self.wf(),
        ensures
            n == self@.used_pages(),
    {
        self.used_pages
    }

    /// Whole pages still free for page allocations.
    pub fn available_pages(&self) -> (n: usize)
        requires
            self.wf(),
        ensures
            n == self@.available_pages(),
    {
        self.available_pages
    }

    /// How the six sums change when region `i` is replaced, or when a
    /// region is appended at `i`, and that the new sums fit in a word when
    /// the new byte total does.
    proof fn lemma_sums(before: Seq<RegionView>, after: Seq<RegionView>, i: int, r: RegionView)
        requires
            0 <= i <= before.len(),
            after.len() <= MAX_BLOCKS,
            after == (if i < before.len() {
                before.update(i, r)
            } else {
                before.push(r)
            }),
            forall|j: int|
                0 <= j < after.len() ==> (#[trigger] after[j]).wf() && after[j].end <= usize::MAX,
            sum_over(after, Counter::TotalBytes) <= usize::MAX,
        ensures
            forall|c: Counter|
                #![trigger sum_over(after, c)]
                {
                    &&& sum_over(after, c) == sum_over(before, c) - (if i < before.len() {
                        before[i].counter(c)
                    } else {
                        0
                    }) + r.counter(c)
                    &&& i < before.len() ==> before[i].counter(c) <= sum_over(before, c)
                    &&& sum_over(after, c) <= usize::MAX
                },
    {
        assert forall|c: Counter| #![trigger sum_over(after, c)] {
            &&& sum_over(after, c) == sum_over(before, c) - (if i < before.len() {
                before[i].counter(c)
            } else {
                0
            }) + r.counter(c)
            &&& i < before.len() ==> before[i].counter(c) <= sum_over(before, c)
            &&& sum_over(after, c) <= usize::MAX
        } by {
            if i < before.len() {
                lemma_sum_update(before, i, r, c);
            } else {
                lemma_sum_push(before, r, c);
            }
            match c {
                Counter::TotalBytes => {},
                Counter::UsedBytes | Counter::AvailableBytes => {
                    lemma_sum_le(after, c, Counter::TotalBytes);
                },
                _ => {
                    let bound = (usize::MAX / 0x1000) as nat;
                    lemma_sum_bounded(after, c, bound);
                    assert(after.len() * bound <= 8 * bound) by (nonlinear_arith)
                        requires
                            after.len() <= 8,
                    ;
                },
            }
        }
    }
}

} // verus!
