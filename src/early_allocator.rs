use vstd::prelude::*;
use vstd::arithmetic::div_mod::{lemma_fundamental_div_mod, lemma_mod_multiples_basic};

verus! {

/// Why a request to the allocator was not served.
#[derive(Debug, Clone, Copy, PartialEq, Eq, Structural)]
pub enum AllocError {
    /// Serving the request would make the byte region run into the page region.
    NoMemory,
    /// The allocator does not offer the operation.
    Unsupported,
}

/// `addr` rounded up to the next multiple of `align`.
pub open spec fn spec_align_up(addr: int, align: int) -> int {
    if addr % align == 0 {
        addr
    } else {
        addr + (align - addr % align)
    }
}

/// `addr` rounded down to a multiple of `align` (towards minus infinity).
pub open spec fn spec_align_down(addr: int, align: int) -> int {
    addr - addr % align
}

/// The accounting state of an early allocator, as plain numbers.
pub struct Region {
    pub start: int,
    pub end: int,
    pub byte_next: int,
    pub byte_count: int,
    pub page_next: int,
    pub page_count: int,
}

impl Region {
    /// The cursors stay ordered inside the span, and a region with no live
    /// allocation has its cursor at its origin.
    pub open spec fn wf(self) -> bool {
        &&& 0 <= self.start <= self.byte_next <= self.page_next <= self.end <= usize::MAX
        &&& 0 <= self.byte_count
        &&& 0 <= self.page_count
        &&& self.byte_count == 0 ==> self.byte_next == self.start
        &&& self.page_count == 0 ==> self.page_next == self.end
    }

    /// The state right after the span `[start, start + size)` was handed over.
    pub open spec fn initialized(start: int, size: int) -> Region {
        Region {
            start,
            end: start + size,
            byte_next: start,
            byte_count: 0,
            page_next: start + size,
            page_count: 0,
        }
    }

    /// Where a byte allocation with this alignment would begin.
    pub open spec fn byte_slot(self, align: int) -> int {
        spec_align_up(self.byte_next, align)
    }

    /// A byte allocation fits between the byte cursor and the page cursor.
    pub open spec fn can_alloc(self, size: int, align: int) -> bool {
        self.byte_slot(align) + size <= self.page_next
    }

    /// The state after a successful byte allocation.
    pub open spec fn after_alloc(self, size: int, align: int) -> Region {
        Region {
            byte_next: self.byte_slot(align) + size,
            byte_count: self.byte_count + 1,
            ..self
        }
    }

    /// The state after a byte deallocation: the last one reclaims the whole
    /// byte region.
    pub open spec fn after_dealloc(self) -> Region {
        Region {
            byte_next: if self.byte_count == 1 { self.start } else { self.byte_next },
            byte_count: self.byte_count - 1,
            ..self
        }
    }

    /// Where a page allocation of `num_pages` pages with this alignment would
    /// begin (below zero where the pages do not fit under the page cursor).
    pub open spec fn page_slot(self, num_pages: int, align: int, page_size: int) -> int {
        spec_align_down(self.page_next - num_pages * page_size, align)
    }

    /// A page allocation stays above the byte cursor.
    pub open spec fn can_alloc_pages(self, num_pages: int, align: int, page_size: int) -> bool {
        self.page_slot(num_pages, align, page_size) >= self.byte_next
    }

    /// The state after a successful page allocation.
    pub open spec fn after_alloc_pages(self, num_pages: int, align: int, page_size: int) -> Region {
        Region {
            page_next: self.page_slot(num_pages, align, page_size),
            page_count: self.page_count + 1,
            ..self
        }
    }

    /// The state after a page deallocation: the last one reclaims the whole
    /// page region.
    pub open spec fn after_dealloc_pages(self) -> Region {
        Region {
            page_next: if self.page_count == 1 { self.end } else { self.page_next },
            page_count: self.page_count - 1,
            ..self
        }
    }

    /// The byte cursor only moves up, but for a return to `start`; the page
    /// cursor only moves down, but for a return to `end`.
    pub open spec fn cursors_monotone(self, next: Region) -> bool {
        &&& next.start == self.start && next.end == self.end
        &&& next.byte_next >= self.byte_next || next.byte_next == next.start
        &&& next.page_next <= self.page_next || next.page_next == next.end
    }
}

/// Rounding up gives a multiple of `align` less than `align` above `addr`.
pub proof fn lemma_align_up(addr: int, align: int)
    requires
        0 <= addr,
        0 < align,
    ensures
        spec_align_up(addr, align) % align == 0,
        addr <= spec_align_up(addr, align) < addr + align,
{
    lemma_fundamental_div_mod(addr, align);
    if addr % align != 0 {
        assert(spec_align_up(addr, align) == (addr / align + 1) * align) by (nonlinear_arith)
            requires
                addr == align * (addr / align) + addr % align,
                spec_align_up(addr, align) == addr + (align - addr % align),
        ;
        lemma_mod_multiples_basic(addr / align + 1, align);
    }
}

/// Rounding down gives a multiple of `align` less than `align` below `addr`.
pub proof fn lemma_align_down(addr: int, align: int)
    requires
        0 < align,
    ensures
        spec_align_down(addr, align) % align == 0,
        addr - align < spec_align_down(addr, align) <= addr,
{
    lemma_fundamental_div_mod(addr, align);
    assert(spec_align_down(addr, align) == (addr / align) * align) by (nonlinear_arith)
        requires
            addr == align * (addr / align) + addr % align,
            spec_align_down(addr, align) == addr - addr % align,
    ;
    lemma_mod_multiples_basic(addr / align, align);
}

/// The state after the byte allocations `reqs`, each a (size, alignment)
/// pair, made in order.
pub open spec fn allocs(s: Region, reqs: Seq<(int, int)>) -> Region
    decreases reqs.len(),
{
    if reqs.len() == 0 {
        s
    } else {
        allocs(s, reqs.drop_last()).after_alloc(reqs.last().0, reqs.last().1)
    }
}

/// Each of the byte allocations `reqs`, made in order, fits.
pub open spec fn all_fit(s: Region, reqs: Seq<(int, int)>) -> bool
    decreases reqs.len(),
{
    if reqs.len() == 0 {
        true
    } else {
        all_fit(s, reqs.drop_last()) && allocs(s, reqs.drop_last()).can_alloc(
            reqs.last().0,
            reqs.last().1,
        )
    }
}

/// The state after `n` byte deallocations.
pub open spec fn deallocs(s: Region, n: nat) -> Region
    decreases n,
{
    if n == 0 {
        s
    } else {
        deallocs(s, (n - 1) as nat).after_dealloc()
    }
}

/// Every transition keeps `start <= byte_next <= page_next <= end`, with each
/// idle region's cursor at its origin.
pub proof fn lemma_steps_keep_invariant(
    s: Region,
    size: int,
    align: int,
    num_pages: int,
    page_size: int,
)
    requires
        s.wf(),
        size >= 0,
        align > 0,
        num_pages >= 0,
        page_size >= 0,
    ensures
        s.can_alloc(size, align) ==> s.after_alloc(size, align).wf(),
        s.byte_count > 0 ==> s.after_dealloc().wf(),
        s.can_alloc_pages(num_pages, align, page_size) ==> s.after_alloc_pages(
            num_pages,
            align,
            page_size,
        ).wf(),
        s.page_count > 0 ==> s.after_dealloc_pages().wf(),
{
    lemma_align_up(s.byte_next, align);
    lemma_align_down(s.page_next - num_pages * page_size, align);
    assert(num_pages * page_size >= 0) by (nonlinear_arith)
        requires
            num_pages >= 0,
            page_size >= 0,
    ;
}

/// The byte cursor never moves down but to return to `start`, and the page
/// cursor never moves up but to return to `end`.
pub proof fn lemma_steps_monotone(
    s: Region,
    size: int,
    align: int,
    num_pages: int,
    page_size: int,
)
    requires
        s.wf(),
        size >= 0,
        align > 0,
        num_pages >= 0,
        page_size >= 0,
    ensures
        s.can_alloc(size, align) ==> s.cursors_monotone(s.after_alloc(size, align)),
        s.byte_count > 0 ==> s.cursors_monotone(s.after_dealloc()),
        s.can_alloc_pages(num_pages, align, page_size) ==> s.cursors_monotone(
            s.after_alloc_pages(num_pages, align, page_size),
        ),
        s.page_count > 0 ==> s.cursors_monotone(s.after_dealloc_pages()),
{
    lemma_align_up(s.byte_next, align);
    lemma_align_down(s.page_next - num_pages * page_size, align);
    assert(num_pages * page_size >= 0) by (nonlinear_arith)
        requires
            num_pages >= 0,
            page_size >= 0,
    ;
}

proof fn lemma_allocs(s: Region, reqs: Seq<(int, int)>)
    requires
        s.wf(),
        all_fit(s, reqs),
        forall|i: int| 0 <= i < reqs.len() ==> #[trigger] reqs[i].0 >= 0 && reqs[i].1 > 0,
    ensures
        allocs(s, reqs).wf(),
        allocs(s, reqs).byte_count == s.byte_count + reqs.len(),
        allocs(s, reqs).start == s.start,
        allocs(s, reqs).end == s.end,
        allocs(s, reqs).page_next == s.page_next,
        allocs(s, reqs).page_count == s.page_count,
    decreases reqs.len(),
{
    if reqs.len() > 0 {
        let front = reqs.drop_last();
        assert forall|i: int| 0 <= i < front.len() implies #[trigger] front[i].0 >= 0
            && front[i].1 > 0 by {
            assert(front[i] == reqs[i]);
        }
        lemma_allocs(s, front);
        assert(reqs.last() == reqs[reqs.len() - 1]);
        lemma_align_up(allocs(s, front).byte_next, reqs.last().1);
    }
}

proof fn lemma_deallocs(s: Region, n: nat)
    requires
        s.wf(),
        s.byte_count >= n,
    ensures
        deallocs(s, n).wf(),
        deallocs(s, n).byte_count == s.byte_count - n,
        deallocs(s, n).start == s.start,
        deallocs(s, n).end == s.end,
        deallocs(s, n).page_next == s.page_next,
        deallocs(s, n).page_count == s.page_count,
    decreases n,
{
    if n > 0 {
        lemma_deallocs(s, (n - 1) as nat);
    }
}

/// From a state with no live allocation, `n` byte allocations that all
/// succeed, followed by `n` byte deallocations (whatever addresses and sizes
/// they name, so in any order), put the byte cursor back at `start`; then a
/// byte allocation of at most `end - start` bytes fits, where no pages are
/// outstanding and `start` is aligned for it.
pub proof fn lemma_bulk_reclaim(s: Region, reqs: Seq<(int, int)>, size: int, align: int)
    requires
        s.wf(),
        s.byte_count == 0,
        s.page_count == 0,
        forall|i: int| 0 <= i < reqs.len() ==> #[trigger] reqs[i].0 >= 0 && reqs[i].1 > 0,
        all_fit(s, reqs),
        0 <= size <= s.end - s.start,
        align > 0,
        s.start % align == 0,
    ensures
        deallocs(allocs(s, reqs), reqs.len()).byte_next == s.start,
        deallocs(allocs(s, reqs), reqs.len()).byte_count == 0,
        deallocs(allocs(s, reqs), reqs.len()).can_alloc(size, align),
{
    lemma_allocs(s, reqs);
    lemma_deallocs(allocs(s, reqs), reqs.len());
}

/// The page count is the number of live page allocations, whatever their
/// sizes: two successful page allocations from an idle page region make it 2.
pub proof fn lemma_page_count_after_two(
    s: Region,
    n1: int,
    a1: int,
    n2: int,
    a2: int,
    page_size: int,
)
    requires
        s.wf(),
        s.page_count == 0,
        s.can_alloc_pages(n1, a1, page_size),
        s.after_alloc_pages(n1, a1, page_size).can_alloc_pages(n2, a2, page_size),
    ensures
        s.after_alloc_pages(n1, a1, page_size).after_alloc_pages(n2, a2, page_size).page_count
            == 2,
{
}

/// `addr` rounded up to a multiple of `align`, or `None` where that does not
/// fit in a `usize`.
fn align_up(addr: usize, align: usize) -> (r: Option<usize>)
    requires
        align > 0,
    ensures
        r == (if spec_align_up(addr as int, align as int) <= usize::MAX {
            Some(spec_align_up(addr as int, align as int) as usize)
        } else {
            None::<usize>
        }),
{
    let rem = addr % align;
    if rem == 0 {
        Some(addr)
    } else if align - rem > usize::MAX - addr {
        None
    } else {
        Some(addr + (align - rem))
    }
}

/// `addr` rounded down to a multiple of `align`.
fn align_down(addr: usize, align: usize) -> (r: usize)
    requires
        align > 0,
    ensures
        r == spec_align_down(addr as int, align as int),
{
    proof {
        lemma_fundamental_div_mod(addr as int, align as int);
        assert(align * (addr / align) >= 0) by (nonlinear_arith)
            requires
                align > 0,
        ;
    }
    addr - addr % align
}

/// An allocator for early boot over one span `[start, end)`.
///
/// Byte allocations are carved upwards from `start`, page allocations
/// downwards from `end`; the free gap is `[byte_next, page_next)`.
/// Each region counts its live allocations and is reclaimed in bulk when that
/// count falls back to zero.
pub struct EarlyAllocator<const PAGE_SIZE: usize> {
    start: usize,
    end: usize,
    byte_next: usize,
    byte_count: usize,
    page_next: usize,
    page_count: usize,
}

impl<const PAGE_SIZE: usize> View for EarlyAllocator<PAGE_SIZE> {
    type V = Region;

    closed spec fn view(&self) -> Region {
        Region {
            start: self.start as int,
            end: self.end as int,
            byte_next: self.byte_next as int,
            byte_count: self.byte_count as int,
            page_next: self.page_next as int,
            page_count: self.page_count as int,
        }
    }
}

impl<const PAGE_SIZE: usize> EarlyAllocator<PAGE_SIZE> {
    pub open spec fn wf(&self) -> bool {
        self@.wf()
    }

    /// An allocator over the empty span at address zero.
    pub fn new() -> (r: Self)
        ensures
            r.wf(),
            r@ == Region::initialized(0, 0),
    {
        EarlyAllocator {
            start: 0,
            end: 0,
            byte_next: 0,
            byte_count: 0,
            page_next: 0,
            page_count: 0,
        }
    }

    /// Hands the span `[start, start + size)` to the allocator, forgetting
    /// whatever it held before.
    pub fn init(&mut self, start: usize, size: usize)
        requires
            start + size <= usize::MAX,
        ensures
            final(self).wf(),
            final(self)@ == Region::initialized(start as int, size as int),
    {
        self.start = start;
        self.end = start + size;
        self.byte_count = 0;
        self.byte_next = start;
        self.page_count = 0;
        self.page_next = self.end;
    }

    /// Extending the span is not supported: always fails, changing nothing.
    pub fn add_memory(&mut self, start: usize, size: usize) -> (r: Result<(), AllocError>)
        ensures
            r == Err::<(), AllocError>(AllocError::Unsupported),
            *final(self) == *old(self),
    {
        Err(AllocError::Unsupported)
    }

    /// Allocates `size` bytes aligned to `align` at the byte cursor.
    pub fn alloc_bytes(&mut self, size: usize, align: usize) -> (r: Result<usize, AllocError>)
        requires
            old(self).wf(),
            align > 0,
            old(self)@.byte_count < usize::MAX,
        ensures
            final(self).wf(),
            old(self)@.cursors_monotone(final(self)@),
            old(self)@.can_alloc(size as int, align as int) ==> {
                &&& r == Ok::<usize, AllocError>(old(self)@.byte_slot(align as int) as usize)
                &&& final(self)@ == old(self)@.after_alloc(size as int, align as int)
            },
            !old(self)@.can_alloc(size as int, align as int) ==> {
                &&& r == Err::<usize, AllocError>(AllocError::NoMemory)
                &&& final(self)@ == old(self)@
            },
            r is Ok ==> r->Ok_0 % align == 0,
    {
        proof {
            lemma_align_up(self.byte_next as int, align as int);
        }
        let start = match align_up(self.byte_next, align) {
            Some(s) => s,
            None => return Err(AllocError::NoMemory),
        };
        if start > self.page_next || size > self.page_next - start {
            Err(AllocError::NoMemory)
        } else {
            self.byte_count = self.byte_count + 1;
            self.byte_next = start + size;
            Ok(start)
        }
    }

    /// Releases one byte allocation. The address and size are not checked;
    /// the last release returns the byte cursor to `start`.
    pub fn dealloc(&mut self, pos: usize, size: usize)
        requires
            old(self).wf(),
            old(self)@.byte_count > 0,
        ensures
            final(self).wf(),
            old(self)@.cursors_monotone(final(self)@),
            final(self)@ == old(self)@.after_dealloc(),
    {
        self.byte_count = self.byte_count - 1;
        if self.byte_count == 0 {
            self.byte_next = self.start;
        }
    }

    /// The size of the whole span.
    pub fn total_bytes(&self) -> (r: usize)
        requires
            self.wf(),
        ensures
            r == self@.end - self@.start,
    {
        self.end - self.start
    }

    /// The bytes between `start` and the byte cursor.
    pub fn used_bytes(&self) -> (r: usize)
        requires
            self.wf(),
        ensures
            r == self@.byte_next - self@.start,
    {
        self.byte_next - self.start
    }

    /// The size of the free gap between the two cursors.
    pub fn available_bytes(&self) -> (r: usize)
        requires
            self.wf(),
        ensures
            r == self@.page_next - self@.byte_next,
    {
        self.page_next - self.byte_next
    }

    /// The page size this allocator counts in.
    pub fn page_size(&self) -> (r: usize)
        ensures
            r == PAGE_SIZE,
    {
        PAGE_SIZE
    }

    /// Allocates `num_pages` pages below the page cursor, the start rounded
    /// down to `align_pow2`.
    pub fn alloc_pages(&mut self, num_pages: usize, align_pow2: usize) -> (r: Result<
        usize,
        AllocError,
    >)
        requires
            old(self).wf(),
            align_pow2 > 0,
            old(self)@.page_count < usize::MAX,
        ensures
            final(self).wf(),
            old(self)@.cursors_monotone(final(self)@),
            old(self)@.can_alloc_pages(num_pages as int, align_pow2 as int, PAGE_SIZE as int) ==> {
                &&& r == Ok::<usize, AllocError>(
                    old(self)@.page_slot(num_pages as int, align_pow2 as int, PAGE_SIZE as int) as usize,
                )
                &&& final(self)@ == old(self)@.after_alloc_pages(
                    num_pages as int,
                    align_pow2 as int,
                    PAGE_SIZE as int,
                )
            },
            !old(self)@.can_alloc_pages(num_pages as int, align_pow2 as int, PAGE_SIZE as int) ==> {
                &&& r == Err::<usize, AllocError>(AllocError::NoMemory)
                &&& final(self)@ == old(self)@
            },
            r is Ok ==> r->Ok_0 % align_pow2 == 0,
    {
        let ghost want = self.page_next - num_pages * PAGE_SIZE;
        proof {
            lemma_align_down(want, align_pow2 as int);
        }
        let bytes = match num_pages.checked_mul(PAGE_SIZE) {
            Some(b) => b,
            None => return Err(AllocError::NoMemory),
        };
        if bytes > self.page_next {
            return Err(AllocError::NoMemory);
        }
        let start = align_down(self.page_next - bytes, align_pow2);
        if start < self.byte_next {
            Err(AllocError::NoMemory)
        } else {
            self.page_count = self.page_count + 1;
            self.page_next = start;
            Ok(start)
        }
    }

    /// Releases one page allocation. The address and count are not checked;
    /// the last release returns the page cursor to `end`.
    pub fn dealloc_pages(&mut self, pos: usize, num_pages: usize)
        requires
            old(self).wf(),
            old(self)@.page_count > 0,
        ensures
            final(self).wf(),
            old(self)@.cursors_monotone(final(self)@),
            final(self)@ == old(self)@.after_dealloc_pages(),
    {
        self.page_count = self.page_count - 1;
        if self.page_count == 0 {
            self.page_next = self.end;
        }
    }

    /// The whole pages in the span.
    pub fn total_pages(&self) -> (r: usize)
        requires
            self.wf(),
            PAGE_SIZE > 0,
        ensures
            r == (self@.end - self@.start) / PAGE_SIZE as int,
    {
        (self.end - self.start) / PAGE_SIZE
    }

    /// The number of live page allocations (not a measure of their size).
    pub fn used_pages(&self) -> (r: usize)
        requires
            self.wf(),
        ensures
            r == self@.page_count,
    {
        self.page_count
    }

    /// The whole pages in the free gap between the two cursors.
    pub fn available_pages(&self) -> (r: usize)
        requires
            self.wf(),
            PAGE_SIZE > 0,
        ensures
            r == (self@.page_next - self@.byte_next) / PAGE_SIZE as int,
    {
        (self.page_next - self.byte_next) / PAGE_SIZE
    }
}

} // verus!
