use memac::buddy::{Buddy32M, BuddyAlloc};
use memac::pager::PageManager;
use memac::slab::{SlabAllocator, MAX_SLAB_SIZE};
use memac::{Allocator, Block, FreeError, MemAlloc, ALIGNMENT, SIZE_64K};

const HEAP_BASE: usize = 0x4000_0000;
const HEAP_SIZE: usize = 32 * 1024 * 1024;

fn init<T: MemAlloc>() -> Allocator<T> {
    let mut alloc = Allocator::new();
    assert_eq!(HEAP_BASE % ALIGNMENT, 0);
    alloc.init(HEAP_BASE, HEAP_SIZE);
    alloc
}

fn in_heap(p: usize) -> bool {
    HEAP_BASE <= p && p < HEAP_BASE + HEAP_SIZE
}

#[test]
fn test_page_alloc() {
    for _ in 0..64 {
        for align in 0..=7 {
            let mut alloc = init::<PageManager>();
            let mut v = std::vec::Vec::new();

            for i in 0..16 {
                for j in 0..16 {
                    let size = (rand::random::<usize>() % SIZE_64K) + 1;
                    let layout = std::alloc::Layout::from_size_align(size, 4).unwrap();

                    println!("allocate: {i}, {j}, layout = {:?}", layout);

                    let mem = alloc.mem_alloc_align(layout.size(), layout.align()).unwrap().ptr;
                    v.push((mem, layout));

                    // must be aligned
                    assert_eq!(mem as usize % 1 << align, 0);
                }
            }

            for (mem, layout) in v {
                println!("deallocate: layout = {:?}", layout);
                assert!(alloc.mem_free_align(mem, layout.size(), layout.align(), mem).is_ok());
            }
        }
    }
}

#[test]
fn test_alloc() {
    for _ in 0..64 {
        for align in 0..=7 {
            let mut alloc = init::<Buddy32M>();
            let mut v = std::vec::Vec::new();

            for i in 0..16 {
                let size = 4 << i;
                for j in 0..16 {
                    let size = size + (rand::random::<usize>() % size);
                    let layout = std::alloc::Layout::from_size_align(size, 1 << align).unwrap();

                    println!("allocate: {i}, {j}, layout = {:?}", layout);

                    let block = alloc.mem_alloc_align(layout.size(), layout.align()).unwrap();
                    let mem = block.ptr;
                    v.push((block, layout));

                    // must be aligned
                    assert_eq!(mem as usize % 1 << align, 0);
                }
            }

            for (block, layout) in v {
                println!("deallocate: layout = {:?}", layout);
                let r = alloc.mem_free_align(block.ptr, layout.size(), layout.align(), block.base);
                assert!(r.is_ok());
            }
        }
    }
}

#[test]
fn alloc_free_single_16_byte_object() {
    let mut alloc = init::<Buddy32M>();
    let b = alloc.mem_alloc_align(16, 8).unwrap();
    assert_ne!(b.ptr, 0);
    assert_eq!(b.ptr % 8, 0);
    assert!(in_heap(b.ptr));
    // the first page is the heap's first block, the first slot follows its header
    assert_eq!(b.ptr, HEAP_BASE + 8);
    // the page held this object alone, so it goes back and is to be unmapped
    assert_eq!(alloc.mem_free_align(b.ptr, 16, 8, b.base), Ok(Some((HEAP_BASE, HEAP_BASE + SIZE_64K))));
    // back to the state after init: the whole heap is one free block again
    let whole = alloc.mem_alloc(HEAP_SIZE).unwrap();
    assert_eq!(whole, HEAP_BASE);
}

#[test]
fn fill_one_slab16_page_then_free() {
    let mut alloc = init::<Buddy32M>();
    let mut ptrs = Vec::new();
    // a page of the 16-byte class has 4062 slots of 8 usable bytes
    for k in 0..4062 {
        let p = alloc.mem_alloc(8).unwrap();
        assert_eq!(p, HEAP_BASE + 16 * k + 8);
        ptrs.push(p);
    }
    // the page is full: the next object comes from a fresh page
    let next = alloc.mem_alloc(8).unwrap();
    assert_eq!(next, HEAP_BASE + SIZE_64K + 8);
    assert_eq!(alloc.mem_free(next, 8), Ok(Some((HEAP_BASE + SIZE_64K, HEAP_BASE + 2 * SIZE_64K))));
    let mut unmaps = Vec::new();
    for p in ptrs.iter().rev() {
        if let Some(region) = alloc.mem_free(*p, 8).unwrap() {
            unmaps.push(region);
        }
    }
    assert_eq!(unmaps, vec![(HEAP_BASE, HEAP_BASE + SIZE_64K)]);
}

#[test]
fn large_alignment() {
    let mut alloc = init::<Buddy32M>();
    let b = alloc.mem_alloc_align(128, 4096).unwrap();
    assert_eq!(b.ptr % 4096, 0);
    // the pointer handed out underneath is what the 8 bytes before `ptr` are to hold
    assert!(b.base + 8 <= b.ptr);
    assert!(b.ptr + 128 <= b.base + 128 + 4095 + 8);
    assert!(in_heap(b.base));
    assert!(alloc.mem_free_align(b.ptr, 128, 4096, b.base).is_ok());
    let whole = alloc.mem_alloc(HEAP_SIZE).unwrap();
    assert_eq!(whole, HEAP_BASE);
}

#[test]
fn buddy_exhaustion() {
    let mut alloc = init::<Buddy32M>();
    let two_mib = 2 * 1024 * 1024;
    let mut blocks = Vec::new();
    while let Some(p) = alloc.mem_alloc(two_mib) {
        assert_eq!(p, HEAP_BASE + two_mib * blocks.len());
        blocks.push(p);
    }
    assert_eq!(blocks.len(), HEAP_SIZE / two_mib);
    assert_eq!(alloc.mem_alloc(two_mib), None);
    for p in blocks.iter() {
        assert_eq!(alloc.mem_free(*p, two_mib), Ok(Some((*p, *p + two_mib))));
    }
    assert_eq!(alloc.mem_alloc(two_mib), Some(HEAP_BASE));
}

#[test]
fn buddy_exhaustion_by_pages() {
    let mut buddy = Buddy32M::new(HEAP_BASE, HEAP_SIZE);
    let mut pages = Vec::new();
    for k in 0..512 {
        let p = buddy.buddy_alloc(SIZE_64K).unwrap();
        assert_eq!(p, HEAP_BASE + k * SIZE_64K);
        pages.push(p);
    }
    assert_eq!(buddy.buddy_alloc(SIZE_64K), None);
    for p in pages.iter() {
        assert_eq!(buddy.buddy_free(*p), Some(SIZE_64K));
    }
    assert_eq!(buddy.buddy_alloc(SIZE_64K), Some(HEAP_BASE));
}

#[test]
fn mixed_workload() {
    let mut alloc = init::<Buddy32M>();
    for i in 0..15 {
        for class in [16usize, 32, 64, 128, 256, 512, 1024] {
            let size = class - 8 - (i % 4);
            let mut ptrs = Vec::new();
            for _ in 0..128 {
                ptrs.push(alloc.mem_alloc(size).unwrap());
            }
            for p in ptrs {
                assert!(alloc.mem_free(p, size).is_ok());
            }
        }
    }
    // everything freed: the heap is one free block again
    assert_eq!(alloc.mem_alloc(HEAP_SIZE), Some(HEAP_BASE));
}

#[test]
fn double_free() {
    let mut alloc = init::<Buddy32M>();
    let size = 128 * 1024;
    let p = alloc.mem_alloc(size).unwrap();
    assert_eq!(alloc.mem_free(p, size), Ok(Some((p, p + size))));
    assert_eq!(alloc.mem_free(p, size), Err(FreeError::NotAllocated));
}

#[test]
fn double_free_of_an_object() {
    let mut alloc = init::<Buddy32M>();
    let p = alloc.mem_alloc(100).unwrap();
    let q = alloc.mem_alloc(100).unwrap();
    assert!(alloc.mem_free(p, 100).is_ok());
    assert_eq!(alloc.mem_free(p, 100), Err(FreeError::NotAllocated));
    assert_eq!(alloc.mem_free(q + 1, 100), Err(FreeError::NotAllocated));
    assert_eq!(alloc.mem_free(q, 100), Ok(Some((HEAP_BASE, HEAP_BASE + SIZE_64K))));
}

#[test]
fn free_before_init() {
    let mut alloc = Allocator::<Buddy32M>::new();
    assert_eq!(alloc.mem_alloc(16), None);
    assert_eq!(alloc.mem_free(HEAP_BASE, 16), Err(FreeError::NotAllocated));
}

#[test]
fn class_boundary() {
    // nominal slot size and header of each class
    let classes = [
        (16usize, 8usize),
        (32, 8),
        (64, 8),
        (128, 8),
        (256, 8),
        (512, 8),
        (1024, 8),
        (2040, 16),
        (4088, 16),
        (8184, 16),
        (16376, 16),
        (32752, 16),
    ];
    for (k, (slot, header)) in classes.iter().enumerate() {
        let mut alloc = init::<Buddy32M>();
        let fit = slot - header;
        let p = alloc.mem_alloc(fit).unwrap();
        let q = alloc.mem_alloc(fit).unwrap();
        assert_eq!(p, HEAP_BASE + header);
        assert_eq!(q - p, *slot);
        let mut alloc = init::<Buddy32M>();
        let p = alloc.mem_alloc(fit + 1).unwrap();
        let q = alloc.mem_alloc(fit + 1).unwrap();
        let (next_slot, next_header) = if k + 1 < classes.len() { classes[k + 1] } else { (65512, 8) };
        assert_eq!(p, HEAP_BASE + next_header);
        if next_slot == 65512 {
            assert_eq!(q - p, SIZE_64K);
        } else {
            assert_eq!(q - p, next_slot);
        }
    }
    // the last class holds 65504 bytes; one more goes to the page source
    let mut alloc = init::<Buddy32M>();
    assert_eq!(MAX_SLAB_SIZE, 65504);
    assert_eq!(alloc.mem_alloc(65504), Some(HEAP_BASE + 8));
    assert_eq!(alloc.mem_alloc(65505), Some(HEAP_BASE + SIZE_64K));
}

#[test]
fn unmap_only_when_page_empties() {
    let mut alloc = init::<Buddy32M>();
    let a = alloc.mem_alloc(3000).unwrap();
    let b = alloc.mem_alloc(3000).unwrap();
    assert_eq!(a, HEAP_BASE + 16);
    assert_eq!(b, HEAP_BASE + 4088 + 16);
    assert_eq!(alloc.mem_free(a, 3000), Ok(None));
    assert_eq!(alloc.mem_free(b, 3000), Ok(Some((HEAP_BASE, HEAP_BASE + SIZE_64K))));
}

#[test]
fn full_page_goes_back_to_partial() {
    let mut alloc = init::<Buddy32M>();
    // a page of class 32752 has two slots
    let a = alloc.mem_alloc(30000).unwrap();
    let b = alloc.mem_alloc(30000).unwrap();
    let c = alloc.mem_alloc(30000).unwrap();
    assert_eq!(b - a, 32752);
    assert_eq!(c, HEAP_BASE + SIZE_64K + 16);
    // freeing a slot of the full first page makes it the one to allocate from
    assert_eq!(alloc.mem_free(a, 30000), Ok(None));
    assert_eq!(alloc.mem_alloc(30000), Some(a));
}

#[test]
fn aligned_small_request() {
    let mut alloc = init::<Buddy32M>();
    let b = alloc.mem_alloc_align(24, 8).unwrap();
    assert_eq!(b, Block { ptr: HEAP_BASE + 8, base: HEAP_BASE + 8 });
    let c = alloc.mem_alloc_align(100, 64).unwrap();
    assert_eq!(c.ptr % 64, 0);
    assert!(c.ptr >= c.base + 8);
    assert_eq!(alloc.mem_free_align(c.ptr, 100, 64, c.base), Ok(Some((HEAP_BASE + SIZE_64K, HEAP_BASE + 2 * SIZE_64K))));
}

#[test]
fn buddy_left_first() {
    let mut buddy = Buddy32M::new(HEAP_BASE, HEAP_SIZE);
    assert_eq!(buddy.buddy_alloc(1), Some(HEAP_BASE));
    assert_eq!(buddy.buddy_alloc(0), Some(HEAP_BASE + SIZE_64K));
    assert_eq!(buddy.buddy_alloc(SIZE_64K + 1), Some(HEAP_BASE + 2 * SIZE_64K));
    assert_eq!(buddy.buddy_alloc(SIZE_64K), Some(HEAP_BASE + 4 * SIZE_64K));
    assert_eq!(buddy.buddy_alloc(HEAP_SIZE), None);
    assert_eq!(buddy.buddy_alloc(HEAP_SIZE + 1), None);
    assert_eq!(buddy.buddy_alloc(HEAP_SIZE / 2), Some(HEAP_BASE + HEAP_SIZE / 2));
}

#[test]
fn buddy_free_checks() {
    let mut buddy = Buddy32M::new(HEAP_BASE, HEAP_SIZE);
    let a = buddy.buddy_alloc(3 * SIZE_64K).unwrap();
    assert_eq!(buddy.buddy_free(a + SIZE_64K), None);
    assert_eq!(buddy.buddy_free(HEAP_BASE + HEAP_SIZE), None);
    assert_eq!(buddy.buddy_free(HEAP_BASE - SIZE_64K), None);
    assert_eq!(buddy.buddy_free(a), Some(4 * SIZE_64K));
    assert_eq!(buddy.buddy_free(a), None);
    assert_eq!(buddy.buddy_alloc(HEAP_SIZE), Some(HEAP_BASE));
}

#[test]
fn buddy_merges_buddies() {
    let mut buddy: BuddyAlloc<9, 32> = BuddyAlloc::new(HEAP_BASE, HEAP_SIZE);
    let a = buddy.buddy_alloc(SIZE_64K).unwrap();
    let b = buddy.buddy_alloc(SIZE_64K).unwrap();
    assert_eq!(buddy.buddy_free(a), Some(SIZE_64K));
    // a's block is free but its buddy is not: no block of two pages at the base
    assert_eq!(buddy.buddy_alloc(2 * SIZE_64K), Some(HEAP_BASE + 2 * SIZE_64K));
    assert_eq!(buddy.buddy_free(b), Some(SIZE_64K));
    assert_eq!(buddy.buddy_alloc(2 * SIZE_64K), Some(HEAP_BASE));
}

#[test]
fn page_manager_lowest_page_first() {
    let mut pm = PageManager::new(HEAP_BASE, 4 * SIZE_64K);
    assert_eq!(pm.page_alloc(), Some(HEAP_BASE));
    assert_eq!(pm.page_alloc(), Some(HEAP_BASE + SIZE_64K));
    assert_eq!(pm.page_alloc(), Some(HEAP_BASE + 2 * SIZE_64K));
    assert!(pm.page_free(HEAP_BASE + SIZE_64K));
    assert_eq!(pm.page_alloc(), Some(HEAP_BASE + SIZE_64K));
    assert_eq!(pm.page_alloc(), Some(HEAP_BASE + 3 * SIZE_64K));
    assert_eq!(pm.page_alloc(), None);
}

#[test]
fn page_manager_refuses_bad_addresses() {
    let mut pm = PageManager::new(HEAP_BASE, 4 * SIZE_64K);
    assert!(!pm.page_free(HEAP_BASE + 8));
    assert!(!pm.page_free(HEAP_BASE + 4 * SIZE_64K));
    assert!(!pm.page_free(HEAP_BASE - SIZE_64K));
    // a page that is not handed out is refused, once handed out it is taken back
    assert!(!pm.page_free(HEAP_BASE));
    assert_eq!(pm.page_alloc(), Some(HEAP_BASE));
    assert!(pm.page_free(HEAP_BASE));
    assert!(!pm.page_free(HEAP_BASE));
}

#[test]
fn page_manager_across_books() {
    // more than one word of 64 pages and more than one book of 4096 pages
    let pages = 4096 + 70;
    let mut pm = PageManager::new(HEAP_BASE, pages * SIZE_64K);
    for k in 0..pages {
        assert_eq!(pm.page_alloc(), Some(HEAP_BASE + k * SIZE_64K));
    }
    assert_eq!(pm.page_alloc(), None);
    assert!(pm.page_free(HEAP_BASE + 4100 * SIZE_64K));
    assert!(pm.page_free(HEAP_BASE + 65 * SIZE_64K));
    assert_eq!(pm.page_alloc(), Some(HEAP_BASE + 65 * SIZE_64K));
    assert_eq!(pm.page_alloc(), Some(HEAP_BASE + 4100 * SIZE_64K));
}

#[test]
fn page_manager_as_source_refuses_large() {
    let mut pm = PageManager::new(HEAP_BASE, 4 * SIZE_64K);
    assert_eq!(pm.allocate(SIZE_64K + 1), None);
    assert_eq!(pm.allocate(SIZE_64K), Some(HEAP_BASE));
    assert_eq!(pm.free(HEAP_BASE), Some(SIZE_64K));
}

#[test]
fn slab_allocator_directly() {
    let mut slab = SlabAllocator::<PageManager>::new(HEAP_BASE, HEAP_SIZE);
    let p = slab.slab_alloc(1000).unwrap();
    assert_eq!(p, HEAP_BASE + 8);
    assert!(slab.holds_object(p));
    assert!(!slab.holds_object(p + 1024));
    assert_eq!(slab.slab_alloc(MAX_SLAB_SIZE + 1), None);
    assert_eq!(slab.slab_dealloc(p), Some(HEAP_BASE));
    assert!(!slab.holds_object(p));
    // a page the pools use is not handed to the page source to free
    let q = slab.slab_alloc(10).unwrap();
    assert_eq!(slab.free_pages(q - 8), None);
}

#[test]
fn live_allocations_do_not_overlap() {
    let mut alloc = init::<Buddy32M>();
    let sizes = [1usize, 8, 9, 24, 100, 1000, 2024, 3000, 8000, 20000, 40000, 65504, 65505, 200000];
    let mut live: Vec<(usize, usize)> = Vec::new();
    for round in 0..3 {
        for (k, size) in sizes.iter().enumerate() {
            let align = 1usize << ((k + round) % 8);
            let b = alloc.mem_alloc_align(*size, align).unwrap();
            assert_eq!(b.ptr % align, 0);
            assert!(in_heap(b.ptr) && b.ptr + size <= HEAP_BASE + HEAP_SIZE);
            live.push((b.ptr, *size));
        }
    }
    for i in 0..live.len() {
        for j in (i + 1)..live.len() {
            let (a, la) = live[i];
            let (b, lb) = live[j];
            assert!(a + la <= b || b + lb <= a);
        }
    }
}
