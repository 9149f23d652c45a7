//! A memory allocator built from a buddy page allocator and slab object pools.
//!
//! The library works on addresses as integers: it decides which bytes of the
//! heap belong to which request and never reads or writes the heap itself.
//! Its bookkeeping (the buddy tree's bitmap, the page manager's bitmaps and
//! the slab page records, the latter in a std hash map) lives outside the
//! heap.
use vstd::prelude::*;
use vstd::arithmetic::power2::pow2;
use crate::slab::{SlabAllocator, MAX_SLAB_SIZE, class_for, user_ptr};

mod bits;
pub mod buddy;
pub mod pager;
pub mod slab;

verus! {

/// Size of a page: the unit that page sources hand out.
pub const SIZE_64K: usize = 65536;

/// Mask of the offset of an address inside its page.
pub const MASK_64K: usize = 65535;

/// Alignment that the heap's base address must have.
pub const ALIGNMENT: usize = 65536;

/// Mask that keeps the page part of an address.
pub const MASK: usize = !MASK_64K;

/// Whether the byte ranges `[a1, a1 + l1)` and `[a2, a2 + l2)` share no byte.
pub open spec fn disjoint(a1: int, l1: int, a2: int, l2: int) -> bool {
    a1 + l1 <= a2 || a2 + l2 <= a1
}

/// A source of memory blocks inside one heap region.
///
/// `blocks` maps the base address of each block handed out and not yet
/// returned to its length in bytes.
pub trait MemAlloc: Sized {
    spec fn wf(&self) -> bool;

    spec fn heap_start(&self) -> int;

    spec fn heap_end(&self) -> int;

    spec fn blocks(&self) -> Map<int, int>;

    /// Whether `allocate(size)` finds a block.
    spec fn can_allocate(&self, size: usize) -> bool;

    /// The base of the block that `allocate(size)` hands out when it can.
    spec fn pick(&self, size: usize) -> int;

    /// Whether `new` can manage the region of `size` bytes from `start_addr`.
    spec fn accepts(start_addr: usize, size: usize) -> bool;

    /// The blocks handed out are page aligned, at least a page long, inside
    /// the heap, and pairwise disjoint.
    proof fn lemma_blocks(&self)
        requires
            self.wf(),
        ensures
            forall|a: int| #[trigger]
                self.blocks().contains_key(a) ==> a % 65536 == 0 && self.blocks()[a] >= 65536
                    && self.heap_start() <= a && a + self.blocks()[a] <= self.heap_end(),
            forall|a1: int, a2: int|
                #![trigger self.blocks().contains_key(a1), self.blocks().contains_key(a2)]
                self.blocks().contains_key(a1) && self.blocks().contains_key(a2) && a1 != a2
                    ==> disjoint(a1, self.blocks()[a1], a2, self.blocks()[a2]),
            self.heap_end() <= usize::MAX,
    ;

    /// Hands out a block of at least `size` bytes, or `None` when no block fits.
    fn allocate(&mut self, size: usize) -> (r: Option<usize>)
        requires
            old(self).wf(),
        ensures
            final(self).wf(),
            r is Some <==> old(self).can_allocate(size),
            r matches Some(a) ==> a == old(self).pick(size),
            final(self).heap_start() == old(self).heap_start(),
            final(self).heap_end() == old(self).heap_end(),
            match r {
                Some(a) => {
                    &&& !old(self).blocks().contains_key(a as int)
                    &&& final(self).blocks().contains_key(a as int)
                    &&& final(self).blocks() == old(self).blocks().insert(
                        a as int,
                        final(self).blocks()[a as int],
                    )
                    &&& final(self).blocks()[a as int] >= size
                },
                None => final(self).blocks() == old(self).blocks(),
            },
    ;

    /// Takes back the block whose base is `addr` and returns its length;
    /// `None`, with nothing changed, when no block handed out starts there.
    fn free(&mut self, addr: usize) -> (r: Option<usize>)
        requires
            old(self).wf(),
        ensures
            final(self).wf(),
            final(self).heap_start() == old(self).heap_start(),
            final(self).heap_end() == old(self).heap_end(),
            r is Some <==> old(self).blocks().contains_key(addr as int),
            r matches Some(n) ==> {
                &&& final(self).blocks() == old(self).blocks().remove(addr as int)
                &&& n >= 65536
                &&& addr + n <= final(self).heap_end()
                &&& old(self).blocks().contains_key(addr as int) ==> n == old(self).blocks()[addr as int]
            },
            r is None ==> final(self).blocks() == old(self).blocks(),
    ;

    /// Whether `new` can manage the region of `size` bytes from `start_addr`.
    fn fits(start_addr: usize, size: usize) -> (r: bool)
        ensures
            r == Self::accepts(start_addr, size),
    ;

    /// A source with no block handed out, over `size` bytes from `start_addr`.
    fn new(start_addr: usize, size: usize) -> (r: Self)
        requires
            Self::accepts(start_addr, size),
        ensures
            r.wf(),
            r.blocks() == Map::<int, int>::empty(),
            r.heap_start() == start_addr as int,
            r.heap_end() == start_addr + size,
    ;
}

/// Why a free was refused: the pointer is not one that the allocator handed
/// out and still holds.
#[derive(Clone, Copy, Debug, PartialEq, Eq, Structural)]
pub enum FreeError {
    NotAllocated,
}

/// An allocation: `ptr` is the pointer for the caller, `base` the one that
/// the pools or the page source handed out. Where they differ, the caller's
/// memory holds `base` in the 8 bytes just before `ptr`.
#[derive(Clone, Copy, Debug, PartialEq, Eq, Structural)]
pub struct Block {
    pub ptr: usize,
    pub base: usize,
}

/// Whether `a` is a power of two that fits a `usize`.
pub open spec fn is_pow2(a: int) -> bool {
    exists|e: nat| e < usize::BITS && pow2(e) == a
}

/// The request passed on for `size` bytes aligned to `align`.
pub open spec fn padded(size: int, align: int) -> int {
    if align <= 8 {
        size
    } else {
        size + (align - 1) + 8
    }
}

/// The caller's pointer for a block at `raw` aligned to `align`.
pub open spec fn aligned_ptr(raw: int, align: int) -> int {
    if align <= 8 {
        raw
    } else {
        (raw + align - 1 + 8) - (raw + align - 1 + 8) % align
    }
}

/// Rounding down to a multiple of a power of two clears the low bits.
proof fn lemma_align_down(x: usize, align: usize)
    requires
        is_pow2(align as int),
    ensures
        (x & !((align - 1) as usize)) == x - x % align,
        (x - x % align) % (align as int) == 0,
{
    let e = choose|e: nat| e < usize::BITS && pow2(e) == align;
    vstd::arithmetic::power2::lemma_pow2_pos(e);
    let a1 = (align - 1) as usize;
    assert(a1 == vstd::bits::low_bits_mask(e));
    vstd::bits::lemma_usize_low_bits_mask_is_mod(x, e);
    assert((x & !a1) == x - (x & a1)) by (bit_vector);
    vstd::arithmetic::div_mod::lemma_fundamental_div_mod(x as int, align as int);
    vstd::arithmetic::div_mod::lemma_mod_multiples_basic(x as int / align as int, align as int);
    vstd::arithmetic::mul::lemma_mul_is_commutative(x as int / align as int, align as int);
}

/// A power of two up to 8 divides every multiple of 8.
proof fn lemma_small_align(p: usize, align: usize)
    requires
        is_pow2(align as int),
        align <= 8,
        p % 8 == 0,
    ensures
        p % align == 0,
{
    let e = choose|e: nat| e < usize::BITS && pow2(e) == align;
    vstd::arithmetic::power2::lemma2_to64();
    if e > 3 {
        vstd::arithmetic::power2::lemma_pow2_strictly_increases(3, e);
    }
    let q = p as int / 8;
    assert(p == 8 * q);
    if align == 1 {
    } else if align == 2 {
        assert(p == 2 * (4 * q));
    } else if align == 4 {
        assert(p == 4 * (2 * q));
    }
}

/// A custom memory allocator: slab pools for requests up to `MAX_SLAB_SIZE`
/// bytes, the page source beyond.
pub struct Allocator<PAGEALLOC: MemAlloc> {
    slab: Option<SlabAllocator<PAGEALLOC>>,
}

impl<PAGEALLOC: MemAlloc> Allocator<PAGEALLOC> {
    /// The pools, once `init` ran.
    pub closed spec fn pools(&self) -> Option<SlabAllocator<PAGEALLOC>> {
        self.slab
    }

    pub closed spec fn wf(&self) -> bool {
        self.slab matches Some(s) ==> s.inv()
    }

    /// What `mem_alloc(size)` does, from `a0` to `a1`, returning `r`.
    pub open spec fn alloc_post(a0: Self, a1: Self, size: usize, r: Option<usize>) -> bool {
        match a0.pools() {
            None => r is None && a1 == a0,
            Some(s0) => a1.pools() matches Some(s1) && {
                &&& s1.source().heap_start() == s0.source().heap_start()
                &&& s1.source().heap_end() == s0.source().heap_end()
                &&& size <= MAX_SLAB_SIZE ==> SlabAllocator::alloc_post(s0, s1, size, r)
                &&& size > MAX_SLAB_SIZE ==> {
                    &&& s1.slots() == s0.slots()
                    &&& s1.classes() == s0.classes()
                    &&& s1.pool_lists() == s0.pool_lists()
                    &&& r is Some <==> s0.source().can_allocate(size)
                    &&& r matches Some(a) ==> a == s0.source().pick(size)
                    &&& match r {
                        Some(a) => {
                            &&& !s0.source().blocks().contains_key(a as int)
                            &&& s1.source().blocks() == s0.source().blocks().insert(
                                a as int,
                                s1.source().blocks()[a as int],
                            )
                            &&& s1.source().blocks()[a as int] >= size
                        },
                        None => s1.source().blocks() == s0.source().blocks(),
                    }
                }
                &&& r matches Some(p) ==> {
                    &&& s0.source().heap_start() <= p
                    &&& p + size <= s0.source().heap_end()
                    &&& p % 8 == 0
                }
            },
        }
    }

    /// What `mem_free(ptr, size)` does, from `a0` to `a1`, returning `r`.
    pub open spec fn free_post(
        a0: Self,
        a1: Self,
        ptr: usize,
        size: usize,
        r: Result<Option<(usize, usize)>, FreeError>,
    ) -> bool {
        match a0.pools() {
            None => r == Err::<Option<(usize, usize)>, FreeError>(FreeError::NotAllocated) && a1 == a0,
            Some(s0) => a1.pools() matches Some(s1) && {
                &&& s1.source().heap_start() == s0.source().heap_start()
                &&& s1.source().heap_end() == s0.source().heap_end()
                &&& size <= MAX_SLAB_SIZE ==> if s0.holds(ptr as int) {
                    exists|u: Option<usize>|
                        {
                            &&& SlabAllocator::dealloc_post(s0, s1, ptr, u)
                            &&& r == Ok::<Option<(usize, usize)>, FreeError>(
                                match u {
                                    Some(b) => Some((b, (b + 65536) as usize)),
                                    None => None,
                                },
                            )
                        }
                } else {
                    r == Err::<Option<(usize, usize)>, FreeError>(FreeError::NotAllocated) && s1 == s0
                }
                &&& size > MAX_SLAB_SIZE ==> {
                    &&& s1.slots() == s0.slots()
                    &&& s1.classes() == s0.classes()
                    &&& r is Ok <==> (s0.source().blocks().contains_key(ptr as int)
                        && !s0.slots().contains_key(ptr))
                    &&& match r {
                        Ok(u) => {
                            &&& s1.source().blocks() == s0.source().blocks().remove(ptr as int)
                            &&& u == Some((ptr, (ptr + s0.source().blocks()[ptr as int]) as usize))
                        },
                        Err(_) => s1.source().blocks() == s0.source().blocks(),
                    }
                }
            },
        }
    }

    /// An allocator with no heap yet.
    pub fn new() -> (r: Self)
        ensures
            r.wf(),
            r.pools() is None,
    {
        Allocator { slab: None }
    }

    /// Initializes the allocator over the heap of `size` bytes from
    /// `heap_start`.
    pub fn init(&mut self, heap_start: usize, size: usize)
        requires
            heap_start % 65536 == 0,
            PAGEALLOC::accepts(heap_start, size),
        ensures
            final(self).wf(),
            final(self).pools() matches Some(s) && {
                &&& s.slots() == Map::<usize, Set<int>>::empty()
                &&& s.source().blocks() == Map::<int, int>::empty()
                &&& s.source().heap_start() == heap_start
                &&& s.source().heap_end() == heap_start + size
            },
    {
        let s = SlabAllocator::new(heap_start, size);
        self.slab = Some(s);
    }

    /// Allocates `size` bytes aligned to 8: from the pools up to
    /// `MAX_SLAB_SIZE` bytes, from the page source beyond.
    pub fn mem_alloc(&mut self, size: usize) -> (r: Option<usize>)
        requires
            old(self).wf(),
        ensures
            final(self).wf(),
            Self::alloc_post(*old(self), *final(self), size, r),
    {
        match self.slab.take() {
            None => None,
            Some(mut slab) => {
                let ghost s0 = slab;
                if size <= MAX_SLAB_SIZE {
                    let r = slab.slab_alloc(size);
                    proof {
                        if let Some(p) = r {
                            let c = class_for(size as int);
                            crate::slab::lemma_class_for(size as int);
                            let (b, s) = choose|b: usize, s: int|
                                {
                                    &&& p == user_ptr(b as int, c, s)
                                    &&& slab.classes() == s0.classes().insert(b, c)
                                    &&& match s0.partial_head(c) {
                                        Some(h) => {
                                            &&& b == h
                                            &&& s0.slots().contains_key(b)
                                            &&& 0 <= s < crate::slab::num_slots(c)
                                            &&& !s0.slots()[b].contains(s)
                                            &&& forall|s2: int|
                                                0 <= s2 < s ==> #[trigger] s0.slots()[b].contains(s2)
                                            &&& slab.slots() == s0.slots().insert(
                                                b,
                                                s0.slots()[b].insert(s),
                                            )
                                            &&& slab.source() == s0.source()
                                        },
                                        None => {
                                            &&& s == 0
                                            &&& !s0.source().blocks().contains_key(b as int)
                                            &&& slab.source().blocks() == s0.source().blocks().insert(
                                                b as int,
                                                slab.source().blocks()[b as int],
                                            )
                                            &&& slab.slots() == s0.slots().insert(b, set![0int])
                                        },
                                    }
                                };
                            assert(slab.slots().contains_key(b) && slab.slots()[b].contains(s));
                            slab.lemma_object_in_page(b, s);
                        }
                    }
                    self.slab = Some(slab);
                    r
                } else {
                    let r = slab.alloc_pages(size);
                    proof {
                        slab.lemma_source();
                        slab.source().lemma_blocks();
                    }
                    self.slab = Some(slab);
                    proof {
                        if let Some(p) = r {
                            assert(slab.source().blocks().contains_key(p as int));
                        }
                    }
                    r
                }
            },
        }
    }

    /// Allocates `size` bytes aligned to `align`. Up to 8 the pointer handed
    /// out is the caller's; beyond, `size + (align - 1) + 8` bytes are taken,
    /// and the caller's pointer is the first multiple of `align` at least 8
    /// bytes into them.
    pub fn mem_alloc_align(&mut self, size: usize, align: usize) -> (r: Option<Block>)
        requires
            old(self).wf(),
            is_pow2(align as int),
            size + align + 7 <= usize::MAX,
        ensures
            final(self).wf(),
            Self::alloc_post(
                *old(self),
                *final(self),
                padded(size as int, align as int) as usize,
                match r {
                    Some(b) => Some(b.base),
                    None => None,
                },
            ),
            r matches Some(b) ==> {
                &&& b.ptr == aligned_ptr(b.base as int, align as int)
                &&& b.ptr % align == 0
                &&& align > 8 ==> b.base + 8 <= b.ptr
                &&& b.ptr + size <= b.base + padded(size as int, align as int)
            },
    {
        if align <= 8 {
            match self.mem_alloc(size) {
                Some(p) => {
                    proof {
                        lemma_small_align(p, align);
                    }
                    Some(Block { ptr: p, base: p })
                },
                None => None,
            }
        } else {
            let align_1 = align - 1;
            let size = size + align_1 + 8;
            match self.mem_alloc(size) {
                Some(ptr) => {
                    proof {
                        let s1 = self.pools()->Some_0;
                        s1.lemma_source();
                        lemma_align_down((ptr + align_1 + 8) as usize, align);
                    }
                    let addr = (ptr + align_1 + 8) & !align_1;
                    Some(Block { ptr: addr, base: ptr })
                },
                None => None,
            }
        }
    }

    /// Frees an allocation of `size` bytes aligned to `align` at `ptr`. Beyond
    /// an alignment of 8, `stored` is what the 8 bytes before `ptr` hold: the
    /// pointer that the pools or the page source handed out.
    pub fn mem_free_align(&mut self, ptr: usize, size: usize, align: usize, stored: usize) -> (r:
        Result<Option<(usize, usize)>, FreeError>)
        requires
            old(self).wf(),
            is_pow2(align as int),
            size + align + 7 <= usize::MAX,
        ensures
            final(self).wf(),
            Self::free_post(
                *old(self),
                *final(self),
                if align <= 8 {
                    ptr
                } else {
                    stored
                },
                padded(size as int, align as int) as usize,
                r,
            ),
    {
        if align <= 8 {
            self.mem_free(ptr, size)
        } else {
            let size = size + align - 1 + 8;
            self.mem_free(stored, size)
        }
    }

    /// Frees the allocation at `ptr` of `size` bytes; returns the region to
    /// unmap, if a page or block went back whole. Refused, with nothing
    /// changed, for a pointer the allocator does not hold.
    pub fn mem_free(&mut self, ptr: usize, size: usize) -> (r: Result<
        Option<(usize, usize)>,
        FreeError,
    >)
        requires
            old(self).wf(),
        ensures
            final(self).wf(),
            Self::free_post(*old(self), *final(self), ptr, size, r),
    {
        match self.slab.take() {
            None => Err(FreeError::NotAllocated),
            Some(mut slab) => {
                let ghost s0 = slab;
                let r = if MAX_SLAB_SIZE >= size {
                    if !slab.holds_object(ptr) {
                        Err(FreeError::NotAllocated)
                    } else {
                        proof {
                            let b = crate::slab::page_of(ptr as int) as usize;
                            let s = crate::slab::slot_of(b as int, s0.classes()[b], ptr as int);
                            s0.lemma_object_in_page(b, s);
                        }
                        let result = slab.slab_dealloc(ptr);
                        let r = match result {
                            Some(addr) => Ok(Some((addr, addr + SIZE_64K))),
                            None => Ok(None),
                        };
                        proof {
                            assert(SlabAllocator::dealloc_post(s0, slab, ptr, result));
                            assert(r == Ok::<Option<(usize, usize)>, FreeError>(
                                match result {
                                    Some(b) => Some((b, (b + 65536) as usize)),
                                    None => None,
                                },
                            ));
                        }
                        r
                    }
                } else {
                    let freed = slab.free_pages(ptr);
                    proof {
                        slab.lemma_source();
                    }
                    match freed {
                        Some(n) => Ok(Some((ptr, ptr + n))),
                        None => Err(FreeError::NotAllocated),
                    }
                };
                self.slab = Some(slab);
                proof {
                    if MAX_SLAB_SIZE < size {
                        assert(r is Ok <==> (s0.source().blocks().contains_key(ptr as int)
                            && !s0.slots().contains_key(ptr)));
                        if let Ok(u) = r {
                            assert(slab.source().blocks() == s0.source().blocks().remove(ptr as int));
                            assert(u == Some((ptr, (ptr + s0.source().blocks()[ptr as int]) as usize)));
                        }
                    }
                    if MAX_SLAB_SIZE >= size {
                        if s0.holds(ptr as int) {
                            assert(exists|u: Option<usize>|
                                {
                                    &&& SlabAllocator::dealloc_post(s0, slab, ptr, u)
                                    &&& r == Ok::<Option<(usize, usize)>, FreeError>(
                                        match u {
                                            Some(b) => Some((b, (b + 65536) as usize)),
                                            None => None,
                                        },
                                    )
                                });
                        }
                    }
                }
                r
            },
        }
    }
}

} // verus!
