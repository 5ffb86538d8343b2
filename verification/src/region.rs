//! One contiguous memory region served from both ends: bytes grow forward
//! from its start, pages grow backward from its end.
//!
//! ```text
//! [ bytes-used | avail-area | pages-used ]
//! |            | -->    <-- |            |
//! start    byte_cursor  page_cursor     end
//! ```
//!
//! The two areas compete for the bytes between the cursors, so those bytes
//! are what is available to either: the byte area counts them in bytes, the
//! page area in whole pages. The total of an area is what it has used and
//! what is available to it. A byte allocation therefore lowers the pages
//! available, and a page allocation the bytes available, while what the
//! other area has used stays.

use crate::align::{align_up, is_aligned, is_aligned_pow2, padding, padding_for, PAGE_SIZE};
use vstd::arithmetic::power2::pow2;
use vstd::prelude::*;

verus! {

/// The state of a region: its fixed bounds and its two cursors. Every
/// counter of the region is a function of these four addresses.
pub struct RegionView {
    pub start: nat,
    pub end: nat,
    pub byte_cursor: nat,
    pub page_cursor: nat,
}

impl RegionView {
    /// The cursors lie inside the bounds and never cross, and the page area
    /// is a whole number of pages.
    pub open spec fn wf(self) -> bool {
        &&& self.start <= self.byte_cursor
        &&& self.byte_cursor <= self.page_cursor
        &&& self.page_cursor <= self.end
        &&& (self.end - self.page_cursor) % (PAGE_SIZE as int) == 0
    }

    /// A region of `size` bytes at `start` from which nothing was taken.
    pub open spec fn fresh(start: nat, size: nat) -> Self {
        RegionView { start, end: start + size, byte_cursor: start, page_cursor: start + size }
    }

    /// Bytes in the byte area, taken or still free.
    pub open spec fn total_bytes(self) -> nat {
        (self.page_cursor - self.start) as nat
    }

    /// Bytes handed out by byte allocations, alignment padding included.
    pub open spec fn used_bytes(self) -> nat {
        (self.byte_cursor - self.start) as nat
    }

    /// Bytes between the two cursors.
    pub open spec fn available_bytes(self) -> nat {
        (self.page_cursor - self.byte_cursor) as nat
    }

    /// Whole pages in the page area, taken or still free.
    pub open spec fn total_pages(self) -> nat {
        ((self.end - self.byte_cursor) / (PAGE_SIZE as int)) as nat
    }

    /// Pages handed out by page allocations.
    pub open spec fn used_pages(self) -> nat {
        ((self.end - self.page_cursor) / (PAGE_SIZE as int)) as nat
    }

    /// Whole pages between the two cursors.
    pub open spec fn available_pages(self) -> nat {
        ((self.page_cursor - self.byte_cursor) / (PAGE_SIZE as int)) as nat
    }

    /// Bytes that a byte allocation of `size` bytes aligned to `align`
    /// consumes here: the padding up to the aligned address, then `size`.
    pub open spec fn padded_size(self, size: nat, align: nat) -> nat {
        padding(self.byte_cursor, align) + size
    }

    /// Whether the region can serve a byte allocation.
    pub open spec fn fits(self, size: nat, align: nat) -> bool {
        self.padded_size(size, align) <= self.available_bytes()
    }

    /// The address that a byte allocation aligned to `align` returns.
    pub open spec fn alloc_addr(self, align: nat) -> nat {
        align_up(self.byte_cursor, align)
    }

    /// The region after a byte allocation.
    pub open spec fn after_alloc(self, size: nat, align: nat) -> Self {
        RegionView { byte_cursor: self.alloc_addr(align) + size, ..self }
    }

    /// Whether the `size` bytes at `addr` are the most recent byte
    /// allocation of this region.
    pub open spec fn owns_last(self, addr: nat, size: nat) -> bool {
        self.start <= addr && addr + size == self.byte_cursor
    }

    /// The region after its most recent byte allocation, of `size` bytes,
    /// is given back.
    pub open spec fn after_dealloc(self, size: nat) -> Self {
        RegionView { byte_cursor: (self.byte_cursor - size) as nat, ..self }
    }

    /// Whether the region can serve `count` pages whose base address is a
    /// multiple of two to the power `align_log2`.
    pub open spec fn fits_pages(self, count: nat, align_log2: nat) -> bool {
        &&& count * PAGE_SIZE <= self.available_bytes()
        &&& is_aligned((self.page_cursor - count * PAGE_SIZE) as nat, pow2(align_log2))
    }

    /// The region after a page allocation. The new page cursor is the base
    /// address of the allocation.
    pub open spec fn after_alloc_pages(self, count: nat) -> Self {
        RegionView { page_cursor: (self.page_cursor - count * PAGE_SIZE) as nat, ..self }
    }
}

/// A byte request: how many bytes, and of which alignment their address
/// must be a multiple.
pub struct ByteRequest {
    pub size: nat,
    pub align: nat,
}

impl RegionView {
    /// The region after the requests were served one after the other.
    pub open spec fn after_requests(self, reqs: Seq<ByteRequest>) -> Self
        decreases reqs.len(),
    {
        if reqs.len() == 0 {
            self
        } else {
            self.after_requests(reqs.drop_last()).after_alloc(reqs.last().size, reqs.last().align)
        }
    }

    /// The bytes that the requests consume together, each with the padding
    /// that it meets when its turn comes.
    pub open spec fn padded_total(self, reqs: Seq<ByteRequest>) -> nat
        decreases reqs.len(),
    {
        if reqs.len() == 0 {
            0
        } else {
            self.padded_total(reqs.drop_last()) + self.after_requests(
                reqs.drop_last(),
            ).padded_size(reqs.last().size, reqs.last().align)
        }
    }

    /// The address returned for request `i` when the requests are served
    /// one after the other.
    pub open spec fn address_of(self, reqs: Seq<ByteRequest>, i: int) -> nat {
        self.after_requests(reqs.take(i)).alloc_addr(reqs[i].align)
    }

    /// Whether each request fits when its turn comes.
    pub open spec fn all_fit(self, reqs: Seq<ByteRequest>) -> bool {
        forall|i: int|
            0 <= i < reqs.len() ==> (#[trigger] self.after_requests(reqs.take(i))).fits(
                reqs[i].size,
                reqs[i].align,
            )
    }
}

/// Serving requests one after the other moves the byte cursor forward only,
/// by the padded total when every request fits.
proof fn lemma_requests_advance(r: RegionView, reqs: Seq<ByteRequest>)
    requires
        r.wf(),
        r.padded_total(reqs) <= r.available_bytes(),
    ensures
        r.after_requests(reqs).wf(),
        r.after_requests(reqs).byte_cursor == r.byte_cursor + r.padded_total(reqs),
        r.after_requests(reqs).page_cursor == r.page_cursor,
        r.after_requests(reqs).start == r.start,
        r.after_requests(reqs).end == r.end,
    decreases reqs.len(),
{
    if reqs.len() > 0 {
        lemma_requests_advance(r, reqs.drop_last());
    }
}

/// The padded total of a prefix of the requests is no more than that of
/// all of them.
pub proof fn lemma_padded_total_prefix(r: RegionView, reqs: Seq<ByteRequest>, i: int)
    requires
        0 <= i <= reqs.len(),
    ensures
        r.padded_total(reqs.take(i)) <= r.padded_total(reqs),
        i < reqs.len() ==> r.padded_total(reqs.take(i)) + r.after_requests(
            reqs.take(i),
        ).padded_size(reqs[i].size, reqs[i].align) <= r.padded_total(reqs),
    decreases reqs.len(),
{
    if i == reqs.len() {
        assert(reqs.take(i) =~= reqs);
    } else {
        let init = reqs.drop_last();
        assert(init.take(i) =~= reqs.take(i));
        if i < init.len() {
            lemma_padded_total_prefix(r, init, i);
        } else {
            assert(init.take(i) =~= init);
        }
    }
}

/// Byte allocations from one region whose padded sizes together do not
/// exceed the bytes that the region has available all succeed; afterwards
/// the region has that many bytes less available; and the blocks returned
/// lie one after the other without overlap. The addresses increase
/// strictly from each block of at least one byte to every later block; an
/// empty block has the address of the block that follows it where that one
/// needs no padding.
pub proof fn lemma_allocation_sequence(r: RegionView, reqs: Seq<ByteRequest>)
    requires
        r.wf(),
        r.padded_total(reqs) <= r.available_bytes(),
    ensures
        r.all_fit(reqs),
        r.after_requests(reqs).wf(),
        r.after_requests(reqs).available_bytes() == r.available_bytes() - r.padded_total(reqs),
        r.after_requests(reqs).used_bytes() == r.used_bytes() + r.padded_total(reqs),
        forall|i: int, j: int|
            0 <= i < j < reqs.len() ==> #[trigger] r.address_of(reqs, i) + reqs[i].size
                <= #[trigger] r.address_of(reqs, j),
        forall|i: int, j: int|
            0 <= i < j < reqs.len() && reqs[i].size > 0 ==> #[trigger] r.address_of(reqs, i)
                < #[trigger] r.address_of(reqs, j),
{
    lemma_requests_advance(r, reqs);
    assert forall|i: int| 0 <= i < reqs.len() implies (#[trigger] r.after_requests(
        reqs.take(i),
    )).fits(reqs[i].size, reqs[i].align) by {
        lemma_padded_total_prefix(r, reqs, i);
        lemma_requests_advance(r, reqs.take(i));
    }
    assert forall|i: int, j: int| 0 <= i < j < reqs.len() implies #[trigger] r.address_of(reqs, i)
        + reqs[i].size <= #[trigger] r.address_of(reqs, j) by {
        let head = reqs.take(j);
        assert(head.take(i) =~= reqs.take(i));
        assert(head[i] == reqs[i]);
        lemma_padded_total_prefix(r, reqs, j);
        lemma_padded_total_prefix(r, head, i);
        lemma_requests_advance(r, head);
        lemma_requests_advance(r, head.take(i));
    }
}

/// A memory region with its cursors and its byte counters.
#[derive(Debug, Clone, Copy)]
pub struct Blockmemory {
    start: usize,
    end: usize,
    byte_end: usize,
    page_start: usize,
    total_bytes: usize,
    used_bytes: usize,
    available_bytes: usize,
}

impl View for Blockmemory {
    type V = RegionView;

    closed spec fn view(&self) -> RegionView {
        RegionView {
            start: self.start as nat,
            end: self.end as nat,
            byte_cursor: self.byte_end as nat,
            page_cursor: self.page_start as nat,
        }
    }
}

impl Blockmemory {
    /// The cursors are in order and the stored counters say what the
    /// cursors say.
    pub closed spec fn wf(&self) -> bool {
        &&& self@.wf()
        &&& self.total_bytes == self@.total_bytes()
        &&& self.used_bytes == self@.used_bytes()
        &&& self.available_bytes == self@.available_bytes()
    }

    /// A well-formed region holds the invariant of its model, and its end
    /// is an address.
    pub proof fn lemma_wf(&self)
        requires
            self.wf(),
        ensures
            self@.wf(),
            self@.end <= usize::MAX,
    {
    }

    /// Makes a region of `size` bytes at `start` with both areas empty.
    pub fn new(start: usize, size: usize) -> (r: Self)
        requires
            start + size <= usize::MAX,
        ensures
            r.wf(),
            r@ == RegionView::fresh(start as nat, size as nat),
    {
        Blockmemory {
            start,
            end: start + size,
            byte_end: start,
            page_start: start + size,
            total_bytes: size,
            used_bytes: 0,
            available_bytes: size,
        }
    }

    /// Bytes in the byte area, taken or still free.
    pub fn total_bytes(&self) -> (n: usize)
        requires
            self.wf(),
        ensures
            n == self@.total_bytes(),
    {
        self.total_bytes
    }

    /// Bytes handed out by byte allocations, padding included.
    pub fn used_bytes(&self) -> (n: usize)
        requires
            self.wf(),
        ensures
            n == self@.used_bytes(),
    {
        self.used_bytes
    }

    /// Bytes between the two cursors.
    pub fn available_bytes(&self) -> (n: usize)
        requires
            self.wf(),
        ensures
            n == self@.available_bytes(),
    {
        self.available_bytes
    }

    /// Whole pages in the page area, taken or still free.
    pub fn total_pages(&self) -> (n: usize)
        requires
            self.wf(),
        ensures
            n == self@.total_pages(),
    {
        (self.end - self.byte_end) / PAGE_SIZE
    }

    /// Pages handed out by page allocations.
    pub fn used_pages(&self) -> (n: usize)
        requires
            self.wf(),
        ensures
            n == self@.used_pages(),
    {
        (self.end - self.page_start) / PAGE_SIZE
    }

    /// Whole pages between the two cursors.
    pub fn available_pages(&self) -> (n: usize)
        requires
            self.wf(),
        ensures
            n == self@.available_pages(),
    {
        self.available_bytes / PAGE_SIZE
    }

    /// Takes `size` bytes at the next address that is a multiple of `align`
    /// and returns that address. The padding skipped to reach it is charged
    /// like the bytes themselves. Returns `None`, and changes nothing, when
    /// padding and bytes together do not fit between the cursors.
    pub fn allocate(&mut self, size: usize, align: usize) -> (res: Option<usize>)
        requires
            old(self).wf(),
        ensures
            final(self).wf(),
            res is Some <==> old(self)@.fits(size as nat, align as nat),
            res matches Some(addr) ==> {
                &&& addr == old(self)@.alloc_addr(align as nat)
                &&& final(self)@ == old(self)@.after_alloc(size as nat, align as nat)
            },
            res is None ==> *final(self) == *old(self),
    {
        let pad: usize = padding_for(self.byte_end, align);
        if pad > self.available_bytes {
            return None;
        }
        if size > self.available_bytes - pad {
            return None;
        }
        let addr: usize = self.byte_end + pad;
        let charged: usize = pad + size;
        self.byte_end = addr + size;
        self.used_bytes = self.used_bytes + charged;
        self.available_bytes = self.available_bytes - charged;
        Some(addr)
    }

    /// Whether the `size` bytes at `pos` are the most recent byte allocation
    /// of this region.
    pub fn owns_last(&self, pos: usize, size: usize) -> (b: bool)
        requires
            self.wf(),
        ensures
            b == self@.owns_last(pos as nat, size as nat),
    {
        self.start <= pos && pos <= self.byte_end && self.byte_end - pos == size
    }

    /// Gives back the most recent byte allocation, of `size` bytes: the byte
    /// cursor and the counters go back by `size`. Padding that preceded the
    /// allocation stays charged.
    pub fn dealloc(&mut self, size: usize)
        requires
            old(self).wf(),
            size <= old(self)@.used_bytes(),
        ensures
            final(self).wf(),
            final(self)@ == old(self)@.after_dealloc(size as nat),
    {
        self.byte_end = self.byte_end - size;
        self.used_bytes = self.used_bytes - size;
        self.available_bytes = self.available_bytes + size;
    }

    /// Takes `count` pages from the top of the free area and returns their
    /// base address, which is the new page cursor. Returns `None`, and
    /// changes nothing, when the pages do not fit between the cursors or
    /// their base would not be a multiple of two to the power `align_log2`.
    pub fn alloc_pages(&mut self, count: usize, align_log2: usize) -> (res: Option<usize>)
        requires
            old(self).wf(),
        ensures
            final(self).wf(),
            res is Some <==> old(self)@.fits_pages(count as nat, align_log2 as nat),
            res matches Some(base) ==> {
                &&& base == old(self)@.page_cursor - count * PAGE_SIZE
                &&& final(self)@ == old(self)@.after_alloc_pages(count as nat)
            },
            res is None ==> *final(self) == *old(self),
    {
        let bytes: usize = match count.checked_mul(PAGE_SIZE) {
            Some(b) => b,
            None => {
                return None;
            },
        };
        if bytes > self.available_bytes {
            return None;
        }
        let base: usize = self.page_start - bytes;
        if !is_aligned_pow2(base, align_log2) {
            return None;
        }
        self.page_start = base;
        self.total_bytes = self.total_bytes - bytes;
        self.available_bytes = self.available_bytes - bytes;
        Some(base)
    }
}

} // verus!
