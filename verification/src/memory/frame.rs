//! Physical frame allocation over a bitmap of the pool's pages.
use vstd::prelude::*;
use bitmap_allocator::BitAlloc;
use crate::consts::PAGE_SIZE;
use crate::error::{HvError, HvResult};
use crate::memory::addr::{align_up, is_aligned_spec, PhysAddr};

verus! {

/// Number of bits in the bitmap: it can track up to 1M pages, 4 GiB of memory.
pub const BITMAP_CAP: usize = 0x10_0000;

/// The bitmap that records which pages of the pool are free. It is
/// `bitmap_allocator::BitAlloc1M`, a cascade of 16-bit words; nothing in this
/// crate looks inside it.
#[verifier::external_body]
pub struct PageBitmap {
    inner: bitmap_allocator::BitAlloc1M,
}

/// The indices whose bit is set in the bitmap, that is, the pages that are
/// free to be handed out.
pub uninterp spec fn free_bits(bitmap: PageBitmap) -> Set<int>;

/// The indices `start, .., start + len - 1`.
pub open spec fn run(start: int, len: int) -> Set<int> {
    Set::new(|j: int| start <= j < start + len)
}

/// Two to the power `k`.
pub open spec fn pow2(k: nat) -> nat
    decreases k,
{
    if k == 0 {
        1
    } else {
        2 * pow2((k - 1) as nat)
    }
}

/// Whether `len` pages from index `start` on are all in `free`, lie inside
/// the bitmap, and start at a multiple of two to the `align_log2`.
pub open spec fn is_free_run(free: Set<int>, start: int, len: int, align_log2: nat) -> bool {
    &&& 0 <= start
    &&& start + len <= BITMAP_CAP
    &&& start % (pow2(align_log2) as int) == 0
    &&& forall|j: int| start <= j < start + len ==> #[trigger] free.contains(j)
}

/// `BitAlloc1M::DEFAULT`: the bitmap in which no bit is set.
#[verifier::external_body]
fn bitmap_empty() -> (r: PageBitmap)
    ensures
        free_bits(r) == Set::<int>::empty(),
{
    PageBitmap { inner: bitmap_allocator::BitAlloc1M::DEFAULT }
}

/// `BitAlloc::insert` on the bitmap: sets the bits `start..end` and leaves
/// the others as they are. The crate panics on an empty range and on one that
/// leaves the bitmap, which the precondition excludes.
#[verifier::external_body]
fn bitmap_insert(bitmap: &mut PageBitmap, start: usize, end: usize)
    requires
        start < end <= BITMAP_CAP,
    ensures
        free_bits(*final(bitmap)) == free_bits(*old(bitmap)).union(run(start as int, end - start)),
{
    bitmap.inner.insert(start..end)
}

/// `BitAlloc::alloc` on the bitmap: takes the lowest set bit, if there is
/// one, and clears it; every other bit keeps its state.
#[verifier::external_body]
fn bitmap_alloc(bitmap: &mut PageBitmap) -> (r: Option<usize>)
    ensures
        match r {
            Some(idx) => {
                &&& free_bits(*old(bitmap)).contains(idx as int)
                &&& forall|j: int| #[trigger] free_bits(*old(bitmap)).contains(j) ==> idx <= j
                &&& free_bits(*final(bitmap)) == free_bits(*old(bitmap)).remove(idx as int)
            },
            None => {
                &&& free_bits(*old(bitmap)) == Set::<int>::empty()
                &&& free_bits(*final(bitmap)) == free_bits(*old(bitmap))
            },
        },
{
    bitmap.inner.alloc()
}

/// `BitAlloc::alloc_contiguous` on the bitmap, with no base asked for: it
/// scans upwards for the first run of `size` set bits that starts at a
/// multiple of two to the `align_log2`, clears the run and returns its start.
/// When it finds none the bitmap stays as it is; for a run of at least one
/// bit and an alignment of at most the bitmap's size, it finds one whenever
/// one exists.
#[verifier::external_body]
fn bitmap_alloc_contiguous(bitmap: &mut PageBitmap, size: usize, align_log2: usize) -> (r: Option<
    usize,
>)
    requires
        align_log2 < usize::BITS,
    ensures
        match r {
            Some(start) => {
                &&& size >= 1
                &&& is_free_run(free_bits(*old(bitmap)), start as int, size as int, align_log2 as nat)
                &&& forall|b: int|
                    is_free_run(free_bits(*old(bitmap)), b, size as int, align_log2 as nat) ==> start
                        <= b
                &&& free_bits(*final(bitmap)) == free_bits(*old(bitmap)).difference(
                    run(start as int, size as int),
                )
            },
            None => {
                &&& free_bits(*final(bitmap)) == free_bits(*old(bitmap))
                &&& size >= 1 && align_log2 <= 20 ==> forall|b: int|
                    !is_free_run(free_bits(*old(bitmap)), b, size as int, align_log2 as nat)
            },
        },
{
    bitmap.inner.alloc_contiguous(None, size, align_log2)
}

/// `BitAlloc::dealloc` on the bitmap: sets bit `key` and tells whether it
/// was clear before. The crate indexes out of bounds for a key beyond the
/// bitmap, which the precondition excludes.
#[verifier::external_body]
fn bitmap_dealloc(bitmap: &mut PageBitmap, key: usize) -> (r: bool)
    requires
        key < BITMAP_CAP,
    ensures
        free_bits(*final(bitmap)) == free_bits(*old(bitmap)).insert(key as int),
        r == !free_bits(*old(bitmap)).contains(key as int),
{
    bitmap.inner.dealloc(key)
}

/// Hands out the pages of one contiguous pool, page by page or in runs.
pub struct FrameAllocator {
    base: PhysAddr,
    page_count: usize,
    inner: PageBitmap,
}

impl FrameAllocator {
    /// Physical address of the pool's first page.
    pub closed spec fn base(&self) -> int {
        self.base as int
    }

    /// Number of pages in the pool.
    pub closed spec fn page_count(&self) -> int {
        self.page_count as int
    }

    /// Indices, counted from the pool's base, of the pages that are free.
    pub closed spec fn free(&self) -> Set<int> {
        free_bits(self.inner)
    }

    /// Indices of the pages that are handed out.
    pub open spec fn used(&self) -> Set<int> {
        run(0, self.page_count()).difference(self.free())
    }

    /// The pool starts on a page boundary, fits below the top of the address
    /// space and into the bitmap, and only pages of the pool are ever free.
    pub closed spec fn wf(&self) -> bool {
        &&& self.page_count <= BITMAP_CAP
        &&& self.base % 0x1000 == 0
        &&& self.base + self.page_count * PAGE_SIZE <= u64::MAX
        &&& forall|j: int| #[trigger] free_bits(self.inner).contains(j) ==> 0 <= j < self.page_count
    }

    /// Physical address of the page with index `idx`.
    pub open spec fn page_addr(&self, idx: int) -> int {
        self.base() + idx * PAGE_SIZE
    }

    /// Whether `paddr` lies in one of the pool's pages.
    pub open spec fn in_pool(&self, paddr: int) -> bool {
        self.base() <= paddr < self.base() + self.page_count() * PAGE_SIZE
    }

    /// Index of the page that holds `paddr`.
    pub open spec fn page_index(&self, paddr: int) -> int {
        (paddr - self.base()) / (PAGE_SIZE as int)
    }

    /// Only pages of the pool are ever free.
    pub proof fn lemma_free_in_pool(&self)
        requires
            self.wf(),
        ensures
            forall|j: int| #[trigger] self.free().contains(j) ==> 0 <= j < self.page_count(),
            self.free().subset_of(run(0, self.page_count())),
            self.base() % 0x1000 == 0,
            self.page_count() <= BITMAP_CAP,
    {
    }

    /// A run of pages of the pool ends below the top of the address space.
    pub proof fn lemma_pages_fit(&self, idx: int, count: int)
        requires
            self.wf(),
            0 <= idx,
            0 <= count,
            idx + count <= self.page_count(),
        ensures
            self.page_addr(idx) + count * PAGE_SIZE <= u64::MAX,
            self.in_pool(self.page_addr(idx)) || count == 0,
            self.page_index(self.page_addr(idx)) == idx,
    {
        assert((idx + count) * PAGE_SIZE <= self.page_count * PAGE_SIZE) by (nonlinear_arith)
            requires
                idx + count <= self.page_count,
        ;
        assert((idx + count) * PAGE_SIZE == idx * PAGE_SIZE + count * PAGE_SIZE)
            by (nonlinear_arith);
    }

    /// An allocator with an empty pool: every request fails.
    pub fn empty() -> (r: Self)
        ensures
            r.wf(),
            r.base() == 0,
            r.page_count() == 0,
            r.free() == Set::<int>::empty(),
    {
        FrameAllocator { base: 0, page_count: 0, inner: bitmap_empty() }
    }

    /// Takes over the memory from `base`, rounded up to a page boundary, for
    /// `size` bytes, rounded up to whole pages, and makes every page free.
    pub fn init(&mut self, base: PhysAddr, size: u64)
        requires
            old(self).wf(),
            old(self).page_count() == 0,
            base + size + 2 * PAGE_SIZE <= u64::MAX,
            size <= BITMAP_CAP * PAGE_SIZE,
        ensures
            final(self).wf(),
            final(self).base() == crate::memory::addr::align_up_spec(base as int),
            final(self).page_count() * PAGE_SIZE == crate::memory::addr::align_up_spec(size as int),
            final(self).free() == run(0, final(self).page_count()),
    {
        self.base = align_up(base);
        let page_count: usize = (align_up(size) / 0x1000) as usize;
        if page_count > 0 {
            bitmap_insert(&mut self.inner, 0, page_count);
        }
        self.page_count = page_count;
        assert(self.free() =~= run(0, self.page_count()));
    }

    /// Takes the free page with the lowest address, or reports that none is
    /// left.
    pub fn alloc_one(&mut self) -> (r: Option<PhysAddr>)
        requires
            old(self).wf(),
        ensures
            final(self).wf(),
            final(self).base() == old(self).base(),
            final(self).page_count() == old(self).page_count(),
            r is None <==> old(self).free() == Set::<int>::empty(),
            r is None ==> final(self).free() == old(self).free(),
            r matches Some(paddr) ==> {
                let idx = old(self).page_index(paddr as int);
                &&& paddr == old(self).page_addr(idx)
                &&& old(self).free().contains(idx)
                &&& forall|j: int| #[trigger] old(self).free().contains(j) ==> idx <= j
                &&& final(self).free() == old(self).free().remove(idx)
            },
    {
        match bitmap_alloc(&mut self.inner) {
            Some(idx) => {
                assert(idx * PAGE_SIZE <= self.page_count * PAGE_SIZE) by (nonlinear_arith)
                    requires
                        idx < self.page_count,
                ;
                let paddr: u64 = (idx as u64) * 0x1000 + self.base;
                assert((paddr - self.base) / 4096 == idx);
                Some(paddr)
            },
            None => None,
        }
    }

    /// Takes the lowest run of `frame_count` free pages whose first index is
    /// a multiple of two to the `align_log2`, or reports that there is none.
    pub fn alloc_contiguous(&mut self, frame_count: usize, align_log2: usize) -> (r: Option<
        PhysAddr,
    >)
        requires
            old(self).wf(),
            align_log2 < usize::BITS,
        ensures
            final(self).wf(),
            final(self).base() == old(self).base(),
            final(self).page_count() == old(self).page_count(),
            frame_count >= 1 && align_log2 <= 20 ==> (r is Some <==> exists|b: int|
                is_free_run(old(self).free(), b, frame_count as int, align_log2 as nat)),
            r is None ==> final(self).free() == old(self).free(),
            r matches Some(paddr) ==> {
                let idx = old(self).page_index(paddr as int);
                &&& paddr == old(self).page_addr(idx)
                &&& frame_count >= 1
                &&& is_free_run(old(self).free(), idx, frame_count as int, align_log2 as nat)
                &&& forall|b: int|
                    is_free_run(old(self).free(), b, frame_count as int, align_log2 as nat) ==> idx
                        <= b
                &&& final(self).free() == old(self).free().difference(run(idx, frame_count as int))
            },
    {
        match bitmap_alloc_contiguous(&mut self.inner, frame_count, align_log2) {
            Some(idx) => {
                assert(old(self).free().contains(idx as int));
                assert(idx * PAGE_SIZE <= self.page_count * PAGE_SIZE) by (nonlinear_arith)
                    requires
                        idx < self.page_count,
                ;
                let paddr: u64 = (idx as u64) * 0x1000 + self.base;
                assert((paddr - self.base) / 4096 == idx);
                Some(paddr)
            },
            None => None,
        }
    }

    /// Makes the page that holds `target` free again.
    pub fn dealloc(&mut self, target: PhysAddr)
        requires
            old(self).wf(),
            old(self).in_pool(target as int),
        ensures
            final(self).wf(),
            final(self).base() == old(self).base(),
            final(self).page_count() == old(self).page_count(),
            final(self).free() == old(self).free().insert(old(self).page_index(target as int)),
    {
        let idx: usize = ((target - self.base) / 0x1000) as usize;
        let _ = bitmap_dealloc(&mut self.inner, idx);
    }

    /// Makes the `frame_count` pages from the one that holds `target` on free
    /// again.
    pub fn dealloc_contiguous(&mut self, target: PhysAddr, frame_count: usize)
        requires
            old(self).wf(),
            old(self).in_pool(target as int),
            old(self).page_index(target as int) + frame_count <= old(self).page_count(),
        ensures
            final(self).wf(),
            final(self).base() == old(self).base(),
            final(self).page_count() == old(self).page_count(),
            final(self).free() == old(self).free().union(
                run(old(self).page_index(target as int), frame_count as int),
            ),
    {
        let start_idx: usize = ((target - self.base) / 0x1000) as usize;
        let mut i: usize = start_idx;
        while i < start_idx + frame_count
            invariant
                self.wf(),
                self.base() == old(self).base(),
                self.page_count() == old(self).page_count(),
                start_idx == old(self).page_index(target as int),
                start_idx <= i <= start_idx + frame_count <= self.page_count(),
                self.free() == old(self).free().union(run(start_idx as int, i - start_idx)),
            decreases start_idx + frame_count - i,
        {
            let _ = bitmap_dealloc(&mut self.inner, i);
            assert(self.free() =~= old(self).free().union(run(start_idx as int, i + 1 - start_idx)));
            i = i + 1;
        }
    }
}

/// A run of physical pages. One with a page count of at least one was handed
/// out by a [`FrameAllocator`] and is to be given back to it; one with a page
/// count of zero is a view of memory that no allocator manages.
#[derive(Debug)]
pub struct Frame {
    start_paddr: PhysAddr,
    frame_count: usize,
}

impl Frame {
    #[verifier::type_invariant]
    closed spec fn inv(self) -> bool {
        self.start_paddr + self.frame_count * PAGE_SIZE <= u64::MAX
    }

    /// Physical address of the first page.
    pub closed spec fn start(&self) -> int {
        self.start_paddr as int
    }

    /// Number of pages that the frame owns.
    pub closed spec fn count(&self) -> int {
        self.frame_count as int
    }

    /// Whether the frame's pages are pages of `pool`, the first of them at a
    /// page's start.
    pub open spec fn within(&self, pool: &FrameAllocator) -> bool {
        &&& pool.in_pool(self.start())
        &&& self.start() == pool.page_addr(pool.page_index(self.start()))
        &&& pool.page_index(self.start()) + self.count() <= pool.page_count()
    }

    /// Indices in `pool` of the pages that the frame owns.
    pub open spec fn pages(&self, pool: &FrameAllocator) -> Set<int> {
        run(pool.page_index(self.start()), self.count())
    }

    /// Whether the step from `pre` to `post` handed out exactly this frame:
    /// its pages were free and are now used, and nothing else changed.
    pub open spec fn taken(&self, pre: &FrameAllocator, post: &FrameAllocator) -> bool {
        &&& post.base() == pre.base()
        &&& post.page_count() == pre.page_count()
        &&& self.count() >= 1
        &&& self.within(pre)
        &&& self.pages(pre).subset_of(pre.free())
        &&& post.free() == pre.free().difference(self.pages(pre))
    }

    /// Whether the step from `pre` to `post` took exactly this frame back.
    pub open spec fn given_back(&self, pre: &FrameAllocator, post: &FrameAllocator) -> bool {
        &&& post.base() == pre.base()
        &&& post.page_count() == pre.page_count()
        &&& post.free() == pre.free().union(self.pages(pre))
    }

    /// Allocates one physical page.
    pub fn new(pool: &mut FrameAllocator) -> (r: HvResult<Self>)
        requires
            old(pool).wf(),
        ensures
            final(pool).wf(),
            r is Err <==> old(pool).free() == Set::<int>::empty(),
            r matches Err(e) ==> e == HvError::NoMem && final(pool).free() == old(pool).free()
                && final(pool).base() == old(pool).base() && final(pool).page_count() == old(
                pool,
            ).page_count(),
            r matches Ok(f) ==> {
                &&& f.count() == 1
                &&& f.taken(old(pool), final(pool))
                &&& forall|j: int|
                    #[trigger] old(pool).free().contains(j) ==> old(pool).page_index(f.start())
                        <= j
            },
    {
        match pool.alloc_one() {
            Some(start_paddr) => {
                proof {
                    old(pool).lemma_pages_fit(old(pool).page_index(start_paddr as int), 1);
                    assert(run(old(pool).page_index(start_paddr as int), 1) =~= set![
                        old(pool).page_index(start_paddr as int),
                    ]);
                    assert(pool.free() =~= old(pool).free().difference(
                        run(old(pool).page_index(start_paddr as int), 1),
                    ));
                }
                Ok(Frame { start_paddr, frame_count: 1 })
            },
            None => Err(HvError::NoMem),
        }
    }

    /// Allocates `frame_count` contiguous physical pages, the first at an
    /// index that is a multiple of two to the `align_log2`: the lowest such
    /// run that is free.
    pub fn new_contiguous(pool: &mut FrameAllocator, frame_count: usize, align_log2: usize) -> (r:
        HvResult<Self>)
        requires
            old(pool).wf(),
            align_log2 < usize::BITS,
        ensures
            final(pool).wf(),
            frame_count >= 1 && align_log2 <= 20 ==> (r is Ok <==> exists|b: int|
                is_free_run(old(pool).free(), b, frame_count as int, align_log2 as nat)),
            r matches Err(e) ==> e == HvError::NoMem && final(pool).free() == old(pool).free()
                && final(pool).base() == old(pool).base() && final(pool).page_count() == old(
                pool,
            ).page_count(),
            r matches Ok(f) ==> {
                let idx = old(pool).page_index(f.start());
                &&& f.count() == frame_count
                &&& f.taken(old(pool), final(pool))
                &&& idx % (pow2(align_log2 as nat) as int) == 0
                &&& forall|b: int|
                    is_free_run(old(pool).free(), b, frame_count as int, align_log2 as nat) ==> idx
                        <= b
            },
    {
        match pool.alloc_contiguous(frame_count, align_log2) {
            Some(start_paddr) => {
                proof {
                    let idx = old(pool).page_index(start_paddr as int);
                    assert(old(pool).free().contains(idx + frame_count - 1));
                    old(pool).lemma_pages_fit(idx, frame_count as int);
                }
                Ok(Frame { start_paddr, frame_count })
            },
            None => Err(HvError::NoMem),
        }
    }

    /// A view of the page at `start_paddr`, which no allocator manages: it
    /// owns no page, and giving it back does nothing.
    pub fn from_paddr(start_paddr: PhysAddr) -> (r: Self)
        requires
            is_aligned_spec(start_paddr as int),
        ensures
            r.start() == start_paddr,
            r.count() == 0,
    {
        Frame { start_paddr, frame_count: 0 }
    }

    /// Get the start physical address of this frame.
    pub fn start_paddr(&self) -> (r: PhysAddr)
        ensures
            r == self.start(),
    {
        self.start_paddr
    }

    /// Get the number of pages that this frame owns.
    pub fn frame_count(&self) -> (r: usize)
        ensures
            r == self.count(),
    {
        self.frame_count
    }

    /// Get the total size (in bytes) of this frame.
    pub fn size(&self) -> (r: u64)
        ensures
            r == self.count() * PAGE_SIZE,
    {
        proof {
            use_type_invariant(self);
        }
        (self.frame_count as u64) * 0x1000
    }

    /// Allocates four contiguous pages that start on a 16 KiB boundary, for
    /// a table root: the lowest such run that is free.
    ///
    /// Single pages are taken, lowest first, until four in a row from a
    /// boundary on are held; those four are given back and taken again as
    /// one run; then the other single pages are given back.
    pub fn new_16(pool: &mut FrameAllocator) -> (r: HvResult<Self>)
        requires
            old(pool).wf(),
        ensures
            final(pool).wf(),
            final(pool).base() == old(pool).base(),
            final(pool).page_count() == old(pool).page_count(),
            r is Ok <==> exists|k: int| is_root_run(old(pool), k),
            r matches Err(e) ==> e == HvError::NoMem && final(pool).free() == old(pool).free(),
            r matches Ok(f) ==> {
                let idx = old(pool).page_index(f.start());
                &&& f.count() == 4
                &&& f.start() % 0x4000 == 0
                &&& f.taken(old(pool), final(pool))
                &&& is_root_run(old(pool), idx)
                &&& forall|k: int| #[trigger] is_root_run(old(pool), k) ==> idx <= k
            },
    {
        let ghost all = old(pool).free();
        let mut v: Vec<Frame> = Vec::new();
        let mut run_len: usize = 0;
        let mut last: u64 = 0;
        let ghost mut bound: int = 0;
        proof {
            old(pool).lemma_free_in_pool();
            assert(pow2(0) == 1);
        }
        while run_len < 4
            invariant
                pool.wf(),
                old(pool).wf(),
                pool.base() == old(pool).base(),
                pool.page_count() == old(pool).page_count(),
                all == old(pool).free(),
                0 <= bound <= pool.page_count(),
                run_len <= 4,
                run_len <= v@.len(),
                run_len <= bound,
                forall|j: int| #[trigger] pool.free().contains(j) <==> all.contains(j) && (j >= bound),
                forall|i: int|
                    0 <= i < v@.len() ==> (#[trigger] v@[i]).count() == 1 && v@[i].within(pool)
                        && all.contains(pool.page_index(v@[i].start())) && pool.page_index(
                        v@[i].start(),
                    ) < bound,
                forall|j: int|
                    #[trigger] all.contains(j) && j < bound ==> exists|i: int|
                        0 <= i < v@.len() && pool.page_index((#[trigger] v@[i]).start()) == j,
                forall|t: int|
                    0 <= t < run_len ==> pool.page_index(
                        (#[trigger] v@[v@.len() - run_len + t]).start(),
                    ) == bound - run_len + t,
                forall|i: int|
                    0 <= i < v@.len() - run_len ==> pool.page_index((#[trigger] v@[i]).start()) < bound
                        - run_len,
                run_len > 0 ==> on_boundary(old(pool), bound - run_len) && last == old(
                    pool,
                ).page_addr(bound - 1),
                forall|k: int| #[trigger] is_root_run(old(pool), k) ==> k >= bound - run_len,
            decreases pool.page_count() - bound,
        {
            let ghost before = *pool;
            let ghost lo = bound;
            let ghost prev = v@;
            let ghost prev_run = run_len as int;
            match Frame::new(pool) {
                Ok(f) => {
                    let start: u64 = f.start_paddr;
                    let aligned: bool = start & 0x3fff == 0;
                    assert((start & 0x3fff == 0) == (start % 0x4000 == 0)) by (bit_vector);
                    let ghost idx = before.page_index(f.start());
                    proof {
                        assert(f.pages(&before).contains(idx));
                        assert(before.free().contains(idx));
                        assert(idx >= lo);
                        assert forall|j: int| #[trigger]
                            pool.free().contains(j) <==> all.contains(j) && (j >= idx + 1) by {
                            assert(pool.free().contains(j) == (before.free().contains(j)
                                && !f.pages(&before).contains(j)));
                            assert(before.free().contains(j) == (all.contains(j) && j >= lo));
                            assert(f.pages(&before).contains(j) == (j == idx));
                            if before.free().contains(j) {
                                assert(idx <= j);
                            }
                        }
                        assert forall|j: int| lo <= j < idx implies !all.contains(j) by {
                            if all.contains(j) {
                                assert(before.free().contains(j));
                            }
                        }
                    }
                    let continues: bool = run_len > 0 && start > last && start - last == 0x1000;
                    proof {
                        if prev_run > 0 {
                            assert(continues == (idx == lo));
                        }
                    }
                    v.push(f);
                    if continues {
                        run_len = run_len + 1;
                    } else if aligned {
                        run_len = 1;
                    } else {
                        run_len = 0;
                    }
                    last = start;
                    proof {
                        bound = idx + 1;
                        assert forall|j: int| #[trigger] all.contains(j) && j < bound implies exists|i: int|
                            0 <= i < v@.len() && pool.page_index((#[trigger] v@[i]).start())
                                == j by {
                            if j == idx {
                                assert(pool.page_index(v@[prev.len() as int].start()) == j);
                            } else {
                                let i = choose|i: int|
                                    0 <= i < prev.len() && pool.page_index(
                                        (#[trigger] prev[i]).start(),
                                    ) == j;
                                assert(v@[i] == prev[i]);
                            }
                        }
                        assert forall|i: int| 0 <= i < v@.len() implies (#[trigger] v@[i]).count()
                            == 1 && v@[i].within(pool) && all.contains(
                            pool.page_index(v@[i].start()),
                        ) && pool.page_index(v@[i].start()) < bound by {
                            if i < prev.len() {
                                assert(v@[i] == prev[i]);
                            }
                        }
                        assert forall|t: int| 0 <= t < run_len implies pool.page_index(
                            (#[trigger] v@[v@.len() - run_len + t]).start(),
                        ) == bound - run_len + t by {
                            if t < run_len - 1 {
                                assert(continues);
                                assert(v@[v@.len() - run_len + t] == prev[prev.len() - prev_run + t]);
                            }
                        }
                        assert forall|i: int| 0 <= i < v@.len() - run_len implies pool.page_index(
                            (#[trigger] v@[i]).start(),
                        ) < bound - run_len by {
                            if i < prev.len() {
                                assert(v@[i] == prev[i]);
                                assert(pool.page_index(prev[i].start()) < lo);
                            }
                        }
                        assert forall|k: int| #[trigger] is_root_run(old(pool), k) implies k >= bound
                            - run_len by {
                            assert(k >= lo - prev_run);
                            if !continues {
                                if k < idx {
                                    if prev_run > 0 && k == lo - prev_run {
                                        assert(all.contains(lo));
                                    } else {
                                        if prev_run > 0 {
                                            lemma_boundaries_apart(old(pool), lo - prev_run, k);
                                        }
                                        assert(all.contains(k));
                                    }
                                }
                            }
                        }
                    }
                },
                Err(_) => {
                    proof {
                        assert forall|k: int| !is_root_run(old(pool), k) by {
                            if is_root_run(old(pool), k) {
                                assert(all.contains(k + 3));
                                assert(!pool.free().contains(k + 3));
                            }
                        }
                        assert forall|j: int| #[trigger] all.contains(j) implies j < bound by {
                            if j >= bound {
                                assert(pool.free().contains(j));
                            }
                        }
                    }
                    release_all(pool, v);
                    assert(pool.free() =~= all);
                    return Err(HvError::NoMem);
                },
            }
        }
        let ghost k = bound - 4;
        let ghost full = v@;
        let mut t: usize = 0;
        while t < 4
            invariant
                t <= 4,
                pool.wf(),
                old(pool).wf(),
                pool.base() == old(pool).base(),
                pool.page_count() == old(pool).page_count(),
                all == old(pool).free(),
                k == bound - 4,
                0 <= k,
                bound <= pool.page_count(),
                full.len() >= 4,
                v@ == full.take(full.len() - t),
                forall|i: int|
                    0 <= i < full.len() ==> (#[trigger] full[i]).count() == 1 && full[i].within(pool)
                        && all.contains(pool.page_index(full[i].start())),
                forall|s: int|
                    0 <= s < 4 ==> pool.page_index((#[trigger] full[full.len() - 4 + s]).start()) == k
                        + s,
                forall|j: int| #[trigger]
                    pool.free().contains(j) <==> all.contains(j) && (j >= bound - t),
            decreases 4 - t,
        {
            let ghost before = *pool;
            let f = v.pop().unwrap();
            proof {
                assert(f == full[full.len() - 4 + (3 - t)]);
                assert(before.page_index(f.start()) == bound - t - 1);
                assert(f.pages(&before) =~= set![bound - t - 1]);
            }
            f.dealloc(pool);
            proof {
                assert forall|j: int| #[trigger]
                    pool.free().contains(j) <==> all.contains(j) && (j >= bound - t - 1) by {
                    assert(pool.free().contains(j) == (before.free().contains(j) || j == bound - t - 1));
                }
            }
            t = t + 1;
        }
        let ghost mid = *pool;
        let ghost rest = v@;
        proof {
            assert(rest =~= full.take(full.len() - 4));
            assert forall|j: int| k <= j < k + 4 implies #[trigger] all.contains(j) by {
                assert(pool.page_index(full[full.len() - 4 + (j - k)].start()) == j);
            }
            assert(is_free_run(all, k, 4, 0));
            assert(is_free_run(mid.free(), k, 4, 0));
            assert forall|i: int| 0 <= i < rest.len() implies (#[trigger] rest[i]).count() == 1
                && rest[i].within(pool) && all.contains(pool.page_index(rest[i].start()))
                && pool.page_index(rest[i].start()) < k by {
                assert(rest[i] == full[i]);
            }
            assert forall|p: int| #[trigger]
                pages_of(&mid, rest).contains(p) <==> all.contains(p) && p < k by {
                if pages_of(&mid, rest).contains(p) {
                    let i = choose|i: int|
                        0 <= i < rest.len() && (#[trigger] rest[i]).pages(&mid).contains(p);
                    assert(rest[i].count() == 1);
                }
                if all.contains(p) && p < k {
                    let i = choose|i: int|
                        0 <= i < full.len() && pool.page_index((#[trigger] full[i]).start()) == p;
                    if i >= full.len() - 4 {
                        assert(full[i] == full[full.len() - 4 + (i - (full.len() - 4))]);
                    }
                    assert(rest[i] == full[i]);
                    assert(rest[i].count() == 1);
                    assert(rest[i].pages(&mid).contains(p));
                }
            }
        }
        match Frame::new_contiguous(pool, 4, 0) {
            Ok(ret) => {
                let ghost mid2 = *pool;
                release_all(pool, v);
                proof {
                    let idx = old(pool).page_index(ret.start());
                    assert(idx <= k);
                    assert(mid.free().contains(idx));
                    assert(idx == k);
                    assert(ret.taken(&mid, &mid2));
                    assert(ret.pages(old(pool)) == ret.pages(&mid));
                    assert forall|p: int| #[trigger]
                        pool.free().contains(p) <==> all.contains(p) && !ret.pages(
                            old(pool),
                        ).contains(p) by {
                        assert(pool.free().contains(p) == (mid2.free().contains(p) || pages_of(
                            &mid,
                            rest,
                        ).contains(p)));
                        assert(pages_of(&mid2, rest) =~= pages_of(&mid, rest));
                        assert(mid2.free().contains(p) == (mid.free().contains(p) && !ret.pages(
                            &mid,
                        ).contains(p)));
                    }
                    assert(pool.free() =~= all.difference(ret.pages(old(pool))));
                    assert forall|p: int| ret.pages(old(pool)).contains(p) implies all.contains(
                        p,
                    ) by {
                        assert(mid.free().contains(p));
                    }
                    assert(ret.taken(old(pool), pool));
                    assert(is_root_run(old(pool), k));
                }
                Ok(ret)
            },
            Err(_) => {
                proof {
                    assert(false);
                }
                Err(HvError::NoMem)
            },
        }
    }

    /// Gives the frame's pages back to the pool they came from. A frame that
    /// owns no page leaves the pool as it is.
    pub fn dealloc(self, pool: &mut FrameAllocator)
        requires
            old(pool).wf(),
            self.count() >= 1 ==> self.within(old(pool)),
        ensures
            final(pool).wf(),
            self.given_back(old(pool), final(pool)),
    {
        if self.frame_count == 0 {
            assert(pool.free() =~= old(pool).free().union(self.pages(old(pool))));
        } else if self.frame_count == 1 {
            pool.dealloc(self.start_paddr);
            assert(pool.free() =~= old(pool).free().union(self.pages(old(pool))));
        } else {
            pool.dealloc_contiguous(self.start_paddr, self.frame_count);
        }
    }
}

/// Whether `live` is a full account of what `pool` has handed out: each
/// frame owns at least one page, all of them pages of the pool; no page
/// belongs to two frames; and a page is used exactly if some frame owns it.
pub open spec fn is_ledger(pool: &FrameAllocator, live: Seq<Frame>) -> bool {
    &&& forall|i: int| 0 <= i < live.len() ==> (#[trigger] live[i]).count() >= 1 && live[i].within(pool)
    &&& forall|i: int, j: int|
        0 <= i < live.len() && 0 <= j < live.len() && i != j ==> #[trigger] live[i].pages(
            pool,
        ).disjoint(#[trigger] live[j].pages(pool))
    &&& forall|p: int|
        pool.used().contains(p) <==> exists|i: int|
            0 <= i < live.len() && #[trigger] live[i].pages(pool).contains(p)
}

/// Handing out a frame keeps the account: if `live` lists what was handed
/// out before, then `live` with the new frame lists what is handed out
/// after. In particular the new frame shares no page with an older one.
pub proof fn lemma_allocation_keeps_ledger(
    pre: &FrameAllocator,
    post: &FrameAllocator,
    live: Seq<Frame>,
    fresh: Frame,
)
    requires
        pre.wf(),
        is_ledger(pre, live),
        fresh.taken(pre, post),
    ensures
        is_ledger(post, live.push(fresh)),
        forall|i: int| 0 <= i < live.len() ==> live[i].pages(pre).disjoint(fresh.pages(pre)),
{
    let after = live.push(fresh);
    assert forall|i: int| 0 <= i < live.len() implies live[i].pages(pre).disjoint(
        fresh.pages(pre),
    ) by {
        assert forall|p: int| live[i].pages(pre).contains(p) implies !fresh.pages(pre).contains(
            p,
        ) by {
            assert(pre.used().contains(p));
        }
    }
    assert forall|i: int| 0 <= i < after.len() implies (#[trigger] after[i]).count() >= 1
        && after[i].within(post) by {
        if i < live.len() {
            assert(live[i].within(pre));
        }
    }
    assert forall|i: int, j: int|
        0 <= i < after.len() && 0 <= j < after.len() && i != j implies #[trigger] after[i].pages(
        post,
    ).disjoint(#[trigger] after[j].pages(post)) by {
        if i < live.len() && j < live.len() {
            assert(live[i].pages(pre).disjoint(live[j].pages(pre)));
        } else if i < live.len() {
            assert(live[i].pages(pre).disjoint(fresh.pages(pre)));
        } else {
            assert(live[j].pages(pre).disjoint(fresh.pages(pre)));
        }
    }
    assert forall|p: int|
        post.used().contains(p) <==> exists|i: int|
            0 <= i < after.len() && #[trigger] after[i].pages(post).contains(p) by {
        if post.used().contains(p) {
            if pre.used().contains(p) {
                let i = choose|i: int| 0 <= i < live.len() && #[trigger] live[i].pages(pre).contains(p);
                assert(after[i].pages(post).contains(p));
            } else {
                assert(fresh.pages(pre).contains(p));
                assert(after[live.len() as int].pages(post).contains(p));
            }
        }
        if exists|i: int| 0 <= i < after.len() && #[trigger] after[i].pages(post).contains(p) {
            let i = choose|i: int| 0 <= i < after.len() && #[trigger] after[i].pages(post).contains(p);
            if i < live.len() {
                assert(live[i].pages(pre).contains(p));
                assert(pre.used().contains(p));
                assert(live[i].pages(pre).disjoint(fresh.pages(pre)));
            } else {
                pre.lemma_free_in_pool();
                assert(fresh.pages(pre).contains(p));
                assert(pre.free().contains(p));
            }
        }
    }
}

/// Giving a frame back keeps the account: if `live` lists what was handed
/// out before and its `k`-th frame is given back, then `live` without that
/// frame lists what is handed out after.
pub proof fn lemma_release_keeps_ledger(
    pre: &FrameAllocator,
    post: &FrameAllocator,
    live: Seq<Frame>,
    k: int,
)
    requires
        pre.wf(),
        is_ledger(pre, live),
        0 <= k < live.len(),
        live[k].given_back(pre, post),
    ensures
        is_ledger(post, live.remove(k)),
{
    let after = live.remove(k);
    assert forall|i: int| 0 <= i < after.len() implies (#[trigger] after[i]).count() >= 1
        && after[i].within(post) by {
        let o = if i < k { i } else { i + 1 };
        assert(live[o].within(pre));
    }
    assert forall|i: int, j: int|
        0 <= i < after.len() && 0 <= j < after.len() && i != j implies #[trigger] after[i].pages(
        post,
    ).disjoint(#[trigger] after[j].pages(post)) by {
        let oi = if i < k { i } else { i + 1 };
        let oj = if j < k { j } else { j + 1 };
        assert(live[oi].pages(pre).disjoint(live[oj].pages(pre)));
    }
    assert(live[k].within(pre));
    assert forall|p: int|
        post.used().contains(p) <==> exists|i: int|
            0 <= i < after.len() && #[trigger] after[i].pages(post).contains(p) by {
        if post.used().contains(p) {
            assert(pre.used().contains(p));
            let o = choose|o: int| 0 <= o < live.len() && #[trigger] live[o].pages(pre).contains(p);
            assert(o != k);
            let i = if o < k { o } else { o - 1 };
            assert(after[i] == live[o]);
            assert(after[i].pages(post).contains(p));
        }
        if exists|i: int| 0 <= i < after.len() && #[trigger] after[i].pages(post).contains(p) {
            let i = choose|i: int| 0 <= i < after.len() && #[trigger] after[i].pages(post).contains(p);
            let o = if i < k { i } else { i + 1 };
            assert(live[o].pages(pre).contains(p));
            assert(live[o].pages(pre).disjoint(live[k].pages(pre)));
            assert(pre.used().contains(p));
        }
    }
}

/// Whether page `j` of the pool starts on a 16 KiB boundary.
pub open spec fn on_boundary(pool: &FrameAllocator, j: int) -> bool {
    pool.page_addr(j) % 0x4000 == 0
}

/// Whether four free pages of the pool start at page `k`, which lies on a
/// 16 KiB boundary.
pub open spec fn is_root_run(pool: &FrameAllocator, k: int) -> bool {
    on_boundary(pool, k) && is_free_run(pool.free(), k, 4, 0)
}

/// Two pages on 16 KiB boundaries are the same page or at least four pages
/// apart.
pub proof fn lemma_boundaries_apart(pool: &FrameAllocator, a: int, b: int)
    requires
        on_boundary(pool, a),
        on_boundary(pool, b),
        a < b,
    ensures
        a + 4 <= b,
{
}

/// The pages that the frames of `frames` own, as indices in `pool`.
pub open spec fn pages_of(pool: &FrameAllocator, frames: Seq<Frame>) -> Set<int> {
    Set::new(
        |p: int| exists|i: int| 0 <= i < frames.len() && (#[trigger] frames[i]).pages(pool).contains(p),
    )
}

/// Gives every frame of `frames` back to the pool.
pub fn release_all(pool: &mut FrameAllocator, frames: Vec<Frame>)
    requires
        old(pool).wf(),
        forall|i: int|
            0 <= i < frames@.len() ==> ((#[trigger] frames@[i]).count() >= 1 ==> frames@[i].within(
                old(pool),
            )),
    ensures
        final(pool).wf(),
        final(pool).base() == old(pool).base(),
        final(pool).page_count() == old(pool).page_count(),
        final(pool).free() == old(pool).free().union(pages_of(old(pool), frames@)),
{
    let mut rest = frames;
    let ghost whole = frames@;
    assert(pool.free() =~= old(pool).free().union(
        pages_of(old(pool), whole.subrange(rest@.len() as int, whole.len() as int)),
    ));
    while rest.len() > 0
        invariant
            pool.wf(),
            pool.base() == old(pool).base(),
            pool.page_count() == old(pool).page_count(),
            whole == frames@,
            rest@.len() <= whole.len(),
            rest@ == whole.subrange(0, rest@.len() as int),
            forall|i: int|
                0 <= i < whole.len() ==> ((#[trigger] whole[i]).count() >= 1 ==> whole[i].within(
                    old(pool),
                )),
            pool.free() == old(pool).free().union(
                pages_of(old(pool), whole.subrange(rest@.len() as int, whole.len() as int)),
            ),
        decreases rest@.len(),
    {
        let ghost n = rest@.len() as int;
        let ghost before = *pool;
        let f = rest.pop().unwrap();
        assert(f == whole[n - 1]);
        f.dealloc(pool);
        proof {
            let done_before = whole.subrange(n, whole.len() as int);
            let done_after = whole.subrange(n - 1, whole.len() as int);
            assert forall|p: int|
                pages_of(old(pool), done_after).contains(p) <==> pages_of(
                    old(pool),
                    done_before,
                ).contains(p) || f.pages(old(pool)).contains(p) by {
                if pages_of(old(pool), done_after).contains(p) {
                    let i = choose|i: int|
                        0 <= i < done_after.len() && (#[trigger] done_after[i]).pages(
                            old(pool),
                        ).contains(p);
                    if i > 0 {
                        assert(done_before[i - 1] == done_after[i]);
                    }
                }
                if pages_of(old(pool), done_before).contains(p) {
                    let i = choose|i: int|
                        0 <= i < done_before.len() && (#[trigger] done_before[i]).pages(
                            old(pool),
                        ).contains(p);
                    assert(done_after[i + 1] == done_before[i]);
                }
                if f.pages(old(pool)).contains(p) {
                    assert(done_after[0] == f);
                }
            }
            assert(pool.free() =~= old(pool).free().union(pages_of(old(pool), done_after)));
        }
    }
    assert(whole.subrange(0, whole.len() as int) =~= whole);
}

/// The allocator for the hypervisor's pool: `pool_size` bytes from
/// `mem_pool_start` on, every page free.
pub fn init(mem_pool_start: PhysAddr, pool_size: u64) -> (r: FrameAllocator)
    requires
        mem_pool_start + pool_size + 2 * PAGE_SIZE <= u64::MAX,
        pool_size <= BITMAP_CAP * PAGE_SIZE,
    ensures
        r.wf(),
        r.base() == crate::memory::addr::align_up_spec(mem_pool_start as int),
        r.page_count() * PAGE_SIZE == crate::memory::addr::align_up_spec(pool_size as int),
        r.free() == run(0, r.page_count()),
{
    let mut pool = FrameAllocator::empty();
    pool.init(mem_pool_start, pool_size);
    pool
}

} // verus!
