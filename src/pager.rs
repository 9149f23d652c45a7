//! A page source over up to 64 * 64 * 64 pages of 64 KiB (16 GiB), kept in a
//! three-level bitmap: a slot is set when its unit is fully occupied.
use vstd::prelude::*;
use vstd::arithmetic::div_mod::*;
use crate::{MemAlloc, SIZE_64K, disjoint};
use crate::bits::{bit, lemma_first_clear, lemma_full, lemma_set, lemma_clear};

verus! {

/// Number of pages a `PageManager` can manage.
pub const MAX_PAGES: usize = 262144;

/// 64 * 64 * 64 pages = 64 * 64 * 64 * 64KiB = 16GiB
pub struct PageManager {
    start: usize,
    end: usize,
    vacancy_books: u64,
    vacancy_pages: [u64; 64],
    book: [Book; 64],
}

/// Occupancy of 64 * 64 pages, one bit each.
#[derive(Copy, Clone)]
pub struct Book {
    pages: [u64; 64],
}

impl PageManager {
    /// Number of pages between `start` and `end`.
    pub closed spec fn num_pages(&self) -> int {
        (self.end - self.start) / 65536
    }

    /// First address of the region.
    pub closed spec fn region_start(&self) -> int {
        self.start as int
    }

    /// The free page of lowest index.
    pub closed spec fn first_free(&self) -> int {
        choose|k: int|
            0 <= k < self.num_pages() && !self.used(k) && forall|k2: int|
                0 <= k2 < k ==> #[trigger] self.used(k2)
    }

    /// The region holds at most `MAX_PAGES` pages.
    pub proof fn lemma_num_pages(&self)
        requires
            self.inv(),
        ensures
            0 <= self.num_pages() <= MAX_PAGES,
            self.region_start() % 65536 == 0,
    {
        lemma_div_is_ordered((self.end - self.start) as int, MAX_PAGES * 65536, 65536);
        lemma_div_by_multiple(MAX_PAGES as int, 65536);
        lemma_div_pos_is_pos((self.end - self.start) as int, 65536);
    }

    /// Whether page `k` is handed out.
    pub closed spec fn used(&self, k: int) -> bool {
        bit(self.book@[k / 4096].pages@[(k / 64) % 64], k % 64)
    }

    pub closed spec fn inv(&self) -> bool {
        &&& self.start % 65536 == 0
        &&& self.start <= self.end
        &&& (self.end - self.start) % 65536 == 0
        &&& self.end - self.start <= MAX_PAGES * 65536
        &&& forall|i: int|
            0 <= i < 64 ==> (#[trigger] bit(self.vacancy_books, i) <==> self.vacancy_pages@[i]
                == !0u64)
        &&& forall|i: int, j: int|
            0 <= i < 64 && 0 <= j < 64 ==> (#[trigger] bit(self.vacancy_pages@[i], j) <==> #[trigger] self.book@[i].pages@[j]
                == !0u64)
        &&& forall|k: int| self.num_pages() <= k < MAX_PAGES ==> !#[trigger] self.used(k)
    }

    proof fn lemma_split(k: int)
        requires
            0 <= k < MAX_PAGES,
        ensures
            0 <= k / 4096 < 64,
            0 <= (k / 64) % 64 < 64,
            0 <= k % 64 < 64,
            k == 4096 * (k / 4096) + 64 * ((k / 64) % 64) + k % 64,
    {
        lemma_fundamental_div_mod(k, 64);
        lemma_fundamental_div_mod(k / 64, 64);
        lemma_div_denominator(k, 64, 64);
        lemma_div_pos_is_pos(k, 64);
        lemma_div_pos_is_pos(k / 64, 64);
        lemma_mod_pos_bound(k, 64);
        lemma_mod_pos_bound(k / 64, 64);
        lemma_div_by_multiple_is_strongly_ordered(k, MAX_PAGES as int, 64, 4096);
        lemma_div_by_multiple(4096, 64);
    }

    proof fn lemma_join(i: int, j: int, l: int)
        requires
            0 <= i < 64,
            0 <= j < 64,
            0 <= l < 64,
        ensures
            ({
                let k = 4096 * i + 64 * j + l;
                &&& 0 <= k < MAX_PAGES
                &&& k / 4096 == i
                &&& (k / 64) % 64 == j
                &&& k % 64 == l
            }),
    {
        let k = 4096 * i + 64 * j + l;
        assert(k / 64 == 64 * i + j) by {
            lemma_fundamental_div_mod_converse(k, 64, 64 * i + j, l);
        }
        assert((k / 64) % 64 == j) by {
            lemma_fundamental_div_mod_converse(64 * i + j, 64, i, j);
        }
        assert(k % 64 == l) by {
            lemma_fundamental_div_mod_converse(k, 64, 64 * i + j, l);
        }
        assert(k / 4096 == i) by {
            lemma_fundamental_div_mod_converse(k, 4096, i, 64 * j + l);
        }
    }

    /// Hands out the free page of lowest address, or `None` when every page
    /// is in use.
    pub fn page_alloc(&mut self) -> (r: Option<usize>)
        requires
            old(self).inv(),
        ensures
            final(self).inv(),
            final(self).region_start() == old(self).region_start(),
            final(self).num_pages() == old(self).num_pages(),
            match r {
                Some(a) => exists|k: int|
                    {
                        &&& 0 <= k < old(self).num_pages()
                        &&& a == old(self).region_start() + 65536 * k
                        &&& !old(self).used(k)
                        &&& forall|k2: int| 0 <= k2 < k ==> #[trigger] old(self).used(k2)
                        &&& forall|k2: int|
                            0 <= k2 < MAX_PAGES ==> #[trigger] final(self).used(k2) == (k2 == k
                                || old(self).used(k2))
                    },
                None => {
                    &&& *final(self) == *old(self)
                    &&& forall|k: int| 0 <= k < old(self).num_pages() ==> #[trigger] old(self).used(k)
                },
            },
    {
        if self.vacancy_books == !0 {
            proof {
                assert forall|k: int| 0 <= k < self.num_pages() implies #[trigger] self.used(k) by {
                    Self::lemma_split(k);
                    lemma_full(self.vacancy_books, k / 4096);
                    lemma_full(self.vacancy_pages@[k / 4096], (k / 64) % 64);
                    lemma_full(self.book@[k / 4096].pages@[(k / 64) % 64], k % 64);
                }
            }
            return None;
        }
        let ghost s0 = *self;
        proof {
            lemma_first_clear(self.vacancy_books);
        }
        let idx1 = (!self.vacancy_books).leading_zeros() as usize;
        proof {
            lemma_first_clear(self.vacancy_pages@[idx1 as int]);
        }
        let idx2 = (!self.vacancy_pages[idx1]).leading_zeros() as usize;
        proof {
            lemma_first_clear(self.book@[idx1 as int].pages@[idx2 as int]);
        }
        let idx3 = (!self.book[idx1].pages[idx2]).leading_zeros() as usize;
        assert(idx1 < 64 && idx2 < 64 && idx3 < 64);
        let ghost k = 4096 * idx1 + 64 * idx2 + idx3;
        proof {
            Self::lemma_join(idx1 as int, idx2 as int, idx3 as int);
            assert(!s0.used(k));
            assert forall|k2: int| 0 <= k2 < k implies #[trigger] s0.used(k2) by {
                Self::lemma_split(k2);
                let i = k2 / 4096;
                let j = (k2 / 64) % 64;
                if i < idx1 {
                    assert(bit(s0.vacancy_books, i));
                    lemma_full(s0.vacancy_pages@[i], j);
                    lemma_full(s0.book@[i].pages@[j], k2 % 64);
                } else if j < idx2 {
                    assert(bit(s0.vacancy_pages@[i], j));
                    lemma_full(s0.book@[i].pages@[j], k2 % 64);
                }
            }
        }

        // a book spans 64 * 64 pages, a word of a book 64 pages
        let offset: u64 = (idx1 as u64) * 0x1000_0000 + (idx2 as u64) * 0x40_0000 + (idx3 as u64)
            * 0x1_0000;
        if offset >= (self.end - self.start) as u64 {
            proof {
                assert forall|k2: int| 0 <= k2 < s0.num_pages() implies #[trigger] s0.used(k2) by {}
            }
            return None;
        }
        let addr = self.start + offset as usize;

        let mut b = self.book[idx1];
        let w = b.pages[idx2] | (1 << (63 - idx3) as u64);
        b.pages[idx2] = w;
        self.book[idx1] = b;
        proof {
            assert forall|j: int| 0 <= j < 64 implies bit(w, j) == (j == idx3 || bit(
                s0.book@[idx1 as int].pages@[idx2 as int],
                j,
            )) by {
                lemma_set(s0.book@[idx1 as int].pages@[idx2 as int], idx3 as int, j);
            }
        }
        if self.book[idx1].pages[idx2] == !0 {
            let vp = self.vacancy_pages[idx1] | (1 << (63 - idx2) as u64);
            self.vacancy_pages[idx1] = vp;
            proof {
                assert forall|j: int| 0 <= j < 64 implies bit(vp, j) == (j == idx2 || bit(
                    s0.vacancy_pages@[idx1 as int],
                    j,
                )) by {
                    lemma_set(s0.vacancy_pages@[idx1 as int], idx2 as int, j);
                }
            }
            if self.vacancy_pages[idx1] == !0 {
                let vb = self.vacancy_books | (1 << (63 - idx1) as u64);
                self.vacancy_books = vb;
                proof {
                    assert forall|i: int| 0 <= i < 64 implies bit(vb, i) == (i == idx1 || bit(
                        s0.vacancy_books,
                        i,
                    )) by {
                        lemma_set(s0.vacancy_books, idx1 as int, i);
                    }
                }
            }
        }
        proof {
            assert forall|k2: int| 0 <= k2 < MAX_PAGES implies #[trigger] self.used(k2) == (k2 == k
                || s0.used(k2)) by {
                Self::lemma_split(k2);
            }
            assert forall|k2: int| self.num_pages() <= k2 < MAX_PAGES implies !#[trigger] self.used(
                k2,
            ) by {
                Self::lemma_split(k2);
            }
        }
        Some(addr)
    }

    /// Takes back the page at `addr`; `false`, with nothing changed, when
    /// `addr` is not the address of a page of the region that is handed out.
    pub fn page_free(&mut self, addr: usize) -> (r: bool)
        requires
            old(self).inv(),
        ensures
            final(self).inv(),
            final(self).region_start() == old(self).region_start(),
            final(self).num_pages() == old(self).num_pages(),
            r == (addr % 65536 == 0 && old(self).region_start() <= addr && addr
                < old(self).region_start() + 65536 * old(self).num_pages() && old(self).used(
                (addr - old(self).region_start()) / 65536,
            )),
            r ==> forall|k2: int|
                0 <= k2 < MAX_PAGES ==> #[trigger] final(self).used(k2) == (k2 != (addr
                    - old(self).region_start()) / 65536 && old(self).used(k2)),
            !r ==> *final(self) == *old(self),
    {
        assert((addr & 0xFFFF) == addr % 65536) by (bit_vector);
        if addr & 0xFFFF != 0 || addr >= self.end || addr < self.start {
            // invalid address
            return false;
        }
        let ghost s0 = *self;
        let off = addr - self.start;
        let page = off >> 16;
        assert(page == off / 65536) by (bit_vector)
            requires page == off >> 16;
        let idx1 = (page >> 12) & 0b111111;
        let idx2 = (page >> 6) & 0b111111;
        let idx3 = page & 0b111111;
        proof {
            assert(page < MAX_PAGES);
            assert(idx1 == page / 4096 && idx2 == (page / 64) % 64 && idx3 == page % 64)
                by (bit_vector)
                requires
                    idx1 == (page >> 12) & 0b111111,
                    idx2 == (page >> 6) & 0b111111,
                    idx3 == page & 0b111111,
                    page < 262144,
            ;
            Self::lemma_split(page as int);
        }
        if (self.book[idx1].pages[idx2] >> (63 - idx3) as u64) & 1 != 1 {
            // freed unused page
            return false;
        }

        let mut b = self.book[idx1];
        let w = b.pages[idx2] & !(1 << (63 - idx3) as u64);
        b.pages[idx2] = w;
        self.book[idx1] = b;
        let vp = self.vacancy_pages[idx1] & !(1 << (63 - idx2) as u64);
        self.vacancy_pages[idx1] = vp;
        let vb = self.vacancy_books & !(1 << (63 - idx1) as u64);
        self.vacancy_books = vb;
        proof {
            lemma_clear(s0.book@[idx1 as int].pages@[idx2 as int], idx3 as int, 0);
            lemma_clear(s0.vacancy_pages@[idx1 as int], idx2 as int, 0);
            assert forall|j: int| 0 <= j < 64 implies bit(w, j) == (j != idx3 && bit(
                s0.book@[idx1 as int].pages@[idx2 as int],
                j,
            )) by {
                lemma_clear(s0.book@[idx1 as int].pages@[idx2 as int], idx3 as int, j);
            }
            assert forall|j: int| 0 <= j < 64 implies bit(vp, j) == (j != idx2 && bit(
                s0.vacancy_pages@[idx1 as int],
                j,
            )) by {
                lemma_clear(s0.vacancy_pages@[idx1 as int], idx2 as int, j);
            }
            assert forall|i: int| 0 <= i < 64 implies bit(vb, i) == (i != idx1 && bit(
                s0.vacancy_books,
                i,
            )) by {
                lemma_clear(s0.vacancy_books, idx1 as int, i);
            }
            assert forall|k2: int| 0 <= k2 < MAX_PAGES implies #[trigger] self.used(k2) == (k2
                != page && s0.used(k2)) by {
                Self::lemma_split(k2);
                Self::lemma_split(page as int);
            }
        }
        true
    }
}

impl MemAlloc for PageManager {
    open spec fn wf(&self) -> bool {
        self.inv()
    }

    open spec fn can_allocate(&self, size: usize) -> bool {
        size <= 65536 && exists|k: int| 0 <= k < self.num_pages() && !self.used(k)
    }

    open spec fn pick(&self, size: usize) -> int {
        self.region_start() + 65536 * self.first_free()
    }

    closed spec fn heap_start(&self) -> int {
        self.start as int
    }

    closed spec fn heap_end(&self) -> int {
        self.end as int
    }

    closed spec fn blocks(&self) -> Map<int, int> {
        Map::new(
            |a: int|
                self.start <= a < self.end && (a - self.start) % 65536 == 0 && self.used(
                    (a - self.start) / 65536,
                ),
            |a: int| 65536,
        )
    }

    open spec fn accepts(start_addr: usize, size: usize) -> bool {
        &&& start_addr % 65536 == 0
        &&& size % 65536 == 0
        &&& size <= MAX_PAGES * 65536
        &&& start_addr + size <= usize::MAX
    }

    proof fn lemma_blocks(&self) {
        assert forall|a: int| #[trigger] self.blocks().contains_key(a) implies a % 65536 == 0
            && self.blocks()[a] >= 65536 && self.heap_start() <= a && a + self.blocks()[a]
            <= self.heap_end() by {
            lemma_add_mod_noop(self.start as int, a - self.start, 65536);
            lemma_fundamental_div_mod(a - self.start, 65536);
            lemma_fundamental_div_mod(self.end - self.start, 65536);
        }
        assert forall|a1: int, a2: int|
            #![trigger self.blocks().contains_key(a1), self.blocks().contains_key(a2)]
            self.blocks().contains_key(a1) && self.blocks().contains_key(a2) && a1 != a2
                implies disjoint(a1, self.blocks()[a1], a2, self.blocks()[a2]) by {
            lemma_fundamental_div_mod(a1 - self.start, 65536);
            lemma_fundamental_div_mod(a2 - self.start, 65536);
            let k1 = (a1 - self.start) / 65536;
            let k2 = (a2 - self.start) / 65536;
            if k1 < k2 {
                assert(65536 * k1 + 65536 <= 65536 * k2) by (nonlinear_arith)
                    requires k1 < k2;
            } else {
                assert(65536 * k2 + 65536 <= 65536 * k1) by (nonlinear_arith)
                    requires k2 < k1;
            }
        }
    }

    fn allocate(&mut self, size: usize) -> (r: Option<usize>) {
        if size > SIZE_64K {
            None
        } else {
            let ghost s0 = *self;
            let r = self.page_alloc();
            proof {
                if let Some(a) = r {
                    let k = choose|k: int|
                        {
                            &&& 0 <= k < s0.num_pages()
                            &&& a == s0.region_start() + 65536 * k
                            &&& !s0.used(k)
                            &&& forall|k2: int| 0 <= k2 < k ==> #[trigger] s0.used(k2)
                            &&& forall|k2: int|
                                0 <= k2 < MAX_PAGES ==> #[trigger] self.used(k2) == (k2 == k
                                    || s0.used(k2))
                        };
                    assert(0 <= k < s0.num_pages() && !s0.used(k) && forall|k2: int|
                        0 <= k2 < k ==> #[trigger] s0.used(k2));
                    let f = s0.first_free();
                    if f < k {
                        assert(s0.used(f));
                    } else if k < f {
                        assert(s0.used(k));
                    }
                    assert((a - s0.start) / 65536 == k && (a - s0.start) % 65536 == 0) by {
                        lemma_fundamental_div_mod_converse(a - s0.start, 65536, k, 0);
                    }
                    assert forall|x: int| #[trigger] self.blocks().contains_key(x) == s0.blocks().insert(
                        a as int,
                        65536,
                    ).contains_key(x) by {
                        if s0.start <= x < s0.end {
                            let kx = (x - s0.start) / 65536;
                            lemma_fundamental_div_mod(x - s0.start, 65536);
                            lemma_fundamental_div_mod(s0.end - s0.start, 65536);
                            if (x - s0.start) % 65536 == 0 && kx == k {
                                assert(x == a);
                            }
                        }
                    }
                    assert(self.blocks() =~= s0.blocks().insert(a as int, 65536));
                } else {
                    assert(self.blocks() =~= s0.blocks());
                }
            }
            r
        }
    }

    fn free(&mut self, addr: usize) -> (r: Option<usize>) {
        let ghost s0 = *self;
        proof {
            lemma_add_mod_noop(s0.start as int, addr - s0.start, 65536);
            lemma_fundamental_div_mod(s0.end - s0.start, 65536);
        }
        let r = self.page_free(addr);
        proof {
            if r {
                let k = (addr - s0.start) / 65536;
                assert forall|x: int| #[trigger] self.blocks().contains_key(x) == s0.blocks().remove(
                    addr as int,
                ).contains_key(x) by {
                    if s0.start <= x < s0.end && (x - s0.start) % 65536 == 0 {
                        let kx = (x - s0.start) / 65536;
                        lemma_fundamental_div_mod(x - s0.start, 65536);
                        lemma_fundamental_div_mod(addr - s0.start, 65536);
                        lemma_div_pos_is_pos(x - s0.start, 65536);
                        assert(kx < MAX_PAGES) by {
                            lemma_div_is_ordered(x - s0.start, s0.end - s0.start, 65536);
                        }
                        if kx == k {
                            assert(x == addr);
                        }
                    }
                }
                assert(self.blocks() =~= s0.blocks().remove(addr as int));
            }
        }
        if r {
            Some(SIZE_64K)
        } else {
            None
        }
    }

    fn fits(start_addr: usize, size: usize) -> (r: bool) {
        start_addr % SIZE_64K == 0 && size % SIZE_64K == 0 && size as u64 <= MAX_PAGES as u64 * 65536
            && start_addr <= usize::MAX - size
    }

    fn new(start_addr: usize, size: usize) -> (r: Self) {
        let r = PageManager {
            start: start_addr,
            end: start_addr + size,
            vacancy_books: 0,
            vacancy_pages: [0; 64],
            book: [Book { pages: [0; 64] }; 64],
        };
        proof {
            assert forall|i: int| 0 <= i < 64 implies !bit(0u64, i) by {
                let s = (63 - i) as u64;
                assert((0u64 >> s) & 1 != 1) by (bit_vector);
            }
            assert(0u64 != !0u64) by (bit_vector);
            assert forall|k: int| 0 <= k < MAX_PAGES implies !#[trigger] r.used(k) by {
                Self::lemma_split(k);
                assert(r.book@[k / 4096].pages@[(k / 64) % 64] == 0);
            }
            assert forall|a: int| !#[trigger] r.blocks().contains_key(a) by {
                if start_addr <= a < start_addr + size {
                    lemma_div_is_ordered(a - start_addr, size as int, 65536);
                    lemma_div_pos_is_pos(a - start_addr, 65536);
                    lemma_fundamental_div_mod(size as int, 65536);
                }
            }
            assert(r.blocks() =~= Map::<int, int>::empty());
        }
        r
    }
}

} // verus!
