//! Slab pages: a 64 KiB page cut into slots of one size class, with one or
//! two levels of bitmap to find a free slot.
//!
//! Classes up to 1024 bytes keep a two-level bitmap: slot `64 * i + j` is
//! slot `j` of word `i` of the second level, and slot `i` of the first level
//! is set when word `i` is full. Classes 2040 to 32752 keep a single word.
//! Class 65512 has one slot. Slots that do not exist are set from the start.
//! A slot begins with a header (8 bytes, or 16 for classes 2040 to 32752)
//! that precedes the pointer handed out.
use vstd::prelude::*;
use vstd::std_specs::bits::{u64_leading_zeros, axiom_u64_leading_zeros};
use vstd::arithmetic::power2::{pow2, lemma2_to64};
use vstd::set_lib::{set_int_range, lemma_int_range, lemma_len_subset};
use vstd::arithmetic::div_mod::*;
use vstd::arithmetic::mul::*;
use vstd::hash_map::HashMapWithView;
use crate::{MemAlloc, SIZE_64K, MASK};
use crate::bits::{bit, lemma_first_clear, lemma_full, lemma_set, lemma_clear};

verus! {

/// Number of size classes.
pub const NUM_CLASSES: usize = 13;

/// Largest request that a slab serves.
pub const MAX_SLAB_SIZE: usize = 65512 - 8;

/// Nominal slot size of each class.
pub open spec fn slot_sizes() -> Seq<int> {
    seq![16int, 32, 64, 128, 256, 512, 1024, 2040, 4088, 8184, 16376, 32752, 65512]
}

/// Number of slots in a page of each class.
pub open spec fn slot_counts() -> Seq<int> {
    seq![4062int, 2039, 1021, 511, 255, 127, 63, 32, 16, 8, 4, 2, 1]
}

pub open spec fn slot_size(c: int) -> int {
    slot_sizes()[c]
}

pub open spec fn num_slots(c: int) -> int {
    slot_counts()[c]
}

/// Whether class `c` keeps a two-level bitmap.
pub open spec fn is_small(c: int) -> bool {
    0 <= c < 7
}

/// Whether class `c` keeps a single bitmap word and a 16-byte slot header.
pub open spec fn is_large(c: int) -> bool {
    7 <= c < 12
}

/// Bytes of a slot's header.
pub open spec fn header(c: int) -> int {
    if is_large(c) {
        16
    } else {
        8
    }
}

/// Bytes of a slot that the caller may use.
pub open spec fn user_size(c: int) -> int {
    slot_size(c) - header(c)
}

/// Number of words of the second bitmap level of a small class.
pub open spec fn l2_words(c: int) -> int {
    if c == 0 { 64 } else if c == 1 { 32 } else if c == 2 { 16 } else if c == 3 { 8 } else if c
        == 4 { 4 } else if c == 5 { 2 } else { 1 }
}

/// Bytes before the page's bookkeeping, where the slots lie.
pub open spec fn buf_size(c: int) -> int {
    if is_small(c) {
        65536 - 32 - 8 * l2_words(c)
    } else if is_large(c) {
        65504
    } else {
        65512
    }
}

/// The pointer handed out for slot `s` of the page at `base` of class `c`.
pub open spec fn user_ptr(base: int, c: int, s: int) -> int {
    base + s * slot_size(c) + header(c)
}

/// The class of a request of `size` bytes: the first class whose slots leave
/// `size` bytes to the caller, or `NUM_CLASSES` when none does.
pub open spec fn class_for(size: int) -> int {
    if size <= 8 {
        0
    } else if size <= 24 {
        1
    } else if size <= 56 {
        2
    } else if size <= 120 {
        3
    } else if size <= 248 {
        4
    } else if size <= 504 {
        5
    } else if size <= 1016 {
        6
    } else if size <= 2024 {
        7
    } else if size <= 4072 {
        8
    } else if size <= 8168 {
        9
    } else if size <= 16360 {
        10
    } else if size <= 32736 {
        11
    } else if size <= 65504 {
        12
    } else {
        13
    }
}

/// `class_for` picks the smallest class whose slots hold the request.
pub proof fn lemma_class_for(size: int)
    requires
        0 <= size,
    ensures
        class_for(size) < NUM_CLASSES ==> user_size(class_for(size)) >= size,
        forall|c: int| 0 <= c < class_for(size) ==> #[trigger] user_size(c) < size,
        class_for(size) == NUM_CLASSES <==> size > MAX_SLAB_SIZE,
{
}

/// Facts on the table: slots fit in the page before its bookkeeping, and
/// headers fit in the slots.
pub proof fn lemma_class_table(c: int)
    requires
        0 <= c < NUM_CLASSES,
    ensures
        num_slots(c) >= 1,
        num_slots(c) * slot_size(c) <= buf_size(c),
        buf_size(c) <= 65512,
        slot_size(c) >= header(c) + 8,
        is_small(c) ==> num_slots(c) > 64 * (l2_words(c) - 1) && num_slots(c) <= 64 * l2_words(
            c,
        ),
        is_large(c) ==> num_slots(c) < 64,
{
}

proof fn lemma_tail_not_full(n: u64)
    requires
        n <= 64,
    ensures
        0 < n < 64 ==> !0u64 >> n != !0u64,
        0u64 != !0u64,
{
    assert(0 < n < 64 ==> !0u64 >> n != !0u64) by (bit_vector);
    assert(0u64 != !0u64) by (bit_vector);
}

/// The bits `!0 >> n` are set exactly from slot `n` on.
proof fn lemma_tail_bits(n: u64, i: int)
    requires
        n < 64,
        0 <= i < 64,
    ensures
        bit(!0u64 >> n, i) == (i >= n),
{
    let s = (63 - i) as u64;
    assert((((!0u64 >> n) >> s) & 1 == 1) == (63 - s >= n)) by (bit_vector)
        requires n < 64, s < 64;
}

/// The bookkeeping of one slab page. The page holds no data of the library:
/// this record stands for the header and bitmaps of the page.
#[derive(Clone, Copy)]
pub struct SlabPage {
    l1_bitmap: u64,
    l2_bitmap: [u64; 64],
    prev: Option<usize>,
    next: Option<usize>,
    num: u32,
    size: u32,
}

/// Page offset of a slot index: word and bit of the second bitmap level.
proof fn lemma_slot_split(s: int)
    requires
        0 <= s < 4096,
    ensures
        0 <= s / 64 < 64,
        0 <= s % 64 < 64,
        s == 64 * (s / 64) + s % 64,
{
    lemma_fundamental_div_mod(s, 64);
    lemma_div_pos_is_pos(s, 64);
    lemma_mod_pos_bound(s, 64);
    lemma_div_is_ordered(s, 4095, 64);
}

proof fn lemma_slot_join(i: int, j: int)
    requires
        0 <= i < 64,
        0 <= j < 64,
    ensures
        (64 * i + j) / 64 == i,
        (64 * i + j) % 64 == j,
{
    lemma_fundamental_div_mod_converse(64 * i + j, 64, i, j);
}

/// Whether slot `s` is taken in a page of class `c` with these bitmaps.
pub closed spec fn slot_taken(l1: u64, l2: [u64; 64], num: u32, c: int, s: int) -> bool {
    if is_small(c) {
        bit(l2@[s / 64], s % 64)
    } else if is_large(c) {
        bit(l1, s)
    } else {
        num == 1
    }
}

/// The slots taken in a page of class `c` with these bitmaps.
pub closed spec fn taken_set(l1: u64, l2: [u64; 64], num: u32, c: int) -> Set<int> {
    Set::new(|s: int| 0 <= s < num_slots(c) && slot_taken(l1, l2, num, c, s))
}

/// The bitmaps and count are those of a page of class `c`.
pub closed spec fn bits_ok(l1: u64, l2: [u64; 64], num: u32, size: u32, c: int) -> bool {
    &&& 0 <= c < NUM_CLASSES
    &&& size == slot_size(c)
    &&& num == taken_set(l1, l2, num, c).len()
    &&& is_small(c) ==> {
        &&& forall|i: int|
            0 <= i < 64 ==> (#[trigger] bit(l1, i) <==> (i >= l2_words(c) || l2@[i] == !0u64))
        &&& forall|s: int|
            num_slots(c) <= s < 64 * l2_words(c) ==> #[trigger] slot_taken(l1, l2, num, c, s)
    }
    &&& is_large(c) ==> forall|s: int| num_slots(c) <= s < 64 ==> #[trigger] bit(l1, s)
    &&& !is_small(c) && !is_large(c) ==> num <= 1
}

impl SlabPage {
    /// Whether slot `s` is taken, for a page of class `c`.
    #[verifier::inline]
    spec fn used(&self, c: int, s: int) -> bool {
        slot_taken(self.l1_bitmap, self.l2_bitmap, self.num, c, s)
    }

    /// The slots taken.
    #[verifier::inline]
    spec fn live(&self, c: int) -> Set<int> {
        taken_set(self.l1_bitmap, self.l2_bitmap, self.num, c)
    }

    /// Whether every slot is taken; a page of the last class counts as full
    /// from its first allocation on.
    pub closed spec fn full(&self, c: int) -> bool {
        if is_small(c) || is_large(c) {
            self.l1_bitmap == !0u64
        } else {
            true
        }
    }

    /// Whether a slot is free to allocate.
    pub closed spec fn has_room(&self, c: int) -> bool {
        if is_small(c) || is_large(c) {
            self.l1_bitmap != !0u64
        } else {
            self.num == 0
        }
    }

    pub closed spec fn prev_page(&self) -> Option<usize> {
        self.prev
    }

    pub closed spec fn next_page(&self) -> Option<usize> {
        self.next
    }

    pub closed spec fn count(&self) -> int {
        self.num as int
    }

    /// The record is that of a page of class `c`: the first level mirrors the
    /// second, slots past the last are set, and `num` counts the slots taken.
    #[verifier::inline]
    spec fn ok(&self, c: int) -> bool {
        bits_ok(self.l1_bitmap, self.l2_bitmap, self.num, self.size, c)
    }

    proof fn lemma_live_finite(&self, c: int)
        requires
            0 <= c < NUM_CLASSES,
        ensures
            self.live(c).finite(),
            self.live(c).len() <= num_slots(c),
    {
        lemma_class_table(c);
        lemma_int_range(0, num_slots(c));
        lemma_len_subset(self.live(c), set_int_range(0, num_slots(c)));
    }

    /// A page that holds an object is full exactly when all its slots are taken.
    proof fn lemma_full_count(&self, c: int)
        requires
            self.ok(c),
            self.count() > 0,
        ensures
            self.full(c) <==> self.live(c).len() == num_slots(c),
            self.live(c).len() <= num_slots(c),
    {
        lemma_class_table(c);
        self.lemma_live_finite(c);
        lemma_int_range(0, num_slots(c));
        if is_small(c) || is_large(c) {
            if self.full(c) {
                assert forall|s: int| 0 <= s < num_slots(c) implies #[trigger] self.used(c, s) by {
                    if is_small(c) {
                        lemma_slot_split(s);
                        lemma_full(self.l1_bitmap, s / 64);
                        lemma_div_is_ordered(s, 64 * l2_words(c) - 1, 64);
                        lemma_full(self.l2_bitmap@[s / 64], s % 64);
                    } else {
                        lemma_full(self.l1_bitmap, s);
                    }
                }
                assert(self.live(c) =~= set_int_range(0, num_slots(c)));
            } else {
                lemma_first_clear(self.l1_bitmap);
                let i = u64_leading_zeros(!self.l1_bitmap);
                let sl = if is_small(c) {
                    lemma_first_clear(self.l2_bitmap@[i]);
                    let j = u64_leading_zeros(!self.l2_bitmap@[i]);
                    lemma_slot_join(i, j);
                    64 * i + j
                } else {
                    i
                };
                assert(!self.used(c, sl));
                assert(sl < num_slots(c));
                assert(self.live(c).insert(sl).subset_of(set_int_range(0, num_slots(c))));
                lemma_len_subset(self.live(c).insert(sl), set_int_range(0, num_slots(c)));
                vstd::set::axiom_set_insert_len(self.live(c), sl);
            }
        } else {
            lemma_len_subset(self.live(c), set_int_range(0, num_slots(c)));
        }
        lemma_len_subset(self.live(c), set_int_range(0, num_slots(c)));
    }

    /// A record of an empty page of class `c`.
    fn init(c: usize) -> (r: SlabPage)
        requires
            c < NUM_CLASSES,
        ensures
            r.ok(c as int),
            r.live(c as int) == Set::<int>::empty(),
            r.count() == 0,
            r.prev_page() is None,
            r.next_page() is None,
            r.has_room(c as int),
            !(is_small(c as int) || is_large(c as int)) || !r.full(c as int),
    {
        proof {
            lemma_class_table(c as int);
        }
        let size = class_size(c);
        let mut r = SlabPage {
            l1_bitmap: 0,
            l2_bitmap: [0; 64],
            prev: None,
            next: None,
            num: 0,
            size,
        };
        if c < 7 {
            // the second level has 64 >> c words; the first level marks the
            // words past them as full, the last word its slots past the end
            let n: u64 = class_l2_words(c) as u64;
            let last: u64 = (class_slots(c) - 64 * (n as usize - 1)) as u64;
            r.l1_bitmap = if n == 64 {
                0
            } else {
                !0u64 >> n
            };
            r.l2_bitmap[n as usize - 1] = !0u64 >> last;
            proof {
                lemma_tail_not_full(n);
                assert forall|i: int| 0 <= i < 64 implies (#[trigger] bit(r.l1_bitmap, i) <==> (i
                    >= l2_words(c as int) || r.l2_bitmap@[i] == !0u64)) by {
                    if n == 64 {
                        assert(!bit(0u64, i)) by {
                            let s = (63 - i) as u64;
                            assert((0u64 >> s) & 1 != 1) by (bit_vector);
                        }
                    } else {
                        lemma_tail_bits(n, i);
                    }
                    if i == n - 1 {
                        assert(!0u64 >> last != !0u64) by (bit_vector)
                            requires 0 < last < 64;
                    }
                    assert(0u64 != !0u64) by (bit_vector);
                }
                assert forall|s: int| 0 <= s < 64 * l2_words(c as int) implies #[trigger] r.used(
                    c as int,
                    s,
                ) == (s >= num_slots(c as int)) by {
                    lemma_slot_split(s);
                    if s / 64 == n - 1 {
                        lemma_tail_bits(last, s % 64);
                    } else {
                        assert(!bit(0u64, s % 64)) by {
                            let t = (63 - s % 64) as u64;
                            assert((0u64 >> t) & 1 != 1) by (bit_vector);
                        }
                    }
                }
                assert(r.live(c as int) =~= Set::<int>::empty());
            }
        } else if c < 12 {
            let n = class_slots(c) as u64;
            r.l1_bitmap = !0u64 >> n;
            proof {
                lemma_tail_not_full(n);
                assert forall|s: int| 0 <= s < 64 implies #[trigger] bit(r.l1_bitmap, s) == (s
                    >= num_slots(c as int)) by {
                    lemma_tail_bits(n, s);
                }
                assert(r.live(c as int) =~= Set::<int>::empty());
            }
        } else {
            proof {
                assert(r.live(c as int) =~= Set::<int>::empty());
            }
        }
        r
    }

    /// Takes the free slot of lowest index and returns the pointer handed out
    /// for it.
    fn take_slot(&mut self, c: usize, base: usize) -> (r: usize)
        requires
            old(self).ok(c as int),
            old(self).has_room(c as int),
            base + 65536 <= usize::MAX,
        ensures
            final(self).ok(c as int),
            final(self).prev_page() == old(self).prev_page(),
            final(self).next_page() == old(self).next_page(),
            exists|s: int|
                {
                    &&& 0 <= s < num_slots(c as int)
                    &&& !old(self).live(c as int).contains(s)
                    &&& forall|s2: int|
                        0 <= s2 < s ==> #[trigger] old(self).live(c as int).contains(s2)
                    &&& final(self).live(c as int) == old(self).live(c as int).insert(s)
                    &&& r == user_ptr(base as int, c as int, s)
                },
    {
        let ghost s0 = *self;
        let ghost ci = c as int;
        proof {
            lemma_class_table(ci);
            s0.lemma_live_finite(ci);
        }
        if c < 7 {
            proof {
                lemma_first_clear(s0.l1_bitmap);
            }
            let idx1 = (!self.l1_bitmap).leading_zeros() as usize;
            proof {
                assert(idx1 < l2_words(ci));
                lemma_first_clear(s0.l2_bitmap@[idx1 as int]);
            }
            let idx2 = (!self.l2_bitmap[idx1]).leading_zeros() as usize;
            let ghost s = 64 * idx1 + idx2;
            self.num = self.num + 1;
            let w = self.l2_bitmap[idx1] | (1u64 << (63 - idx2) as u64);
            self.l2_bitmap[idx1] = w;
            if w == !0 {
                self.l1_bitmap = self.l1_bitmap | (1u64 << (63 - idx1) as u64);
            }
            proof {
                lemma_slot_join(idx1 as int, idx2 as int);
                assert(!s0.used(ci, s));
                assert(s < num_slots(ci));
                assert forall|s2: int| 0 <= s2 < s implies #[trigger] s0.live(ci).contains(s2) by {
                    lemma_slot_split(s2);
                    if s2 / 64 < idx1 {
                        assert(bit(s0.l1_bitmap, s2 / 64));
                        lemma_full(s0.l2_bitmap@[s2 / 64], s2 % 64);
                    }
                }
                assert forall|s2: int| 0 <= s2 < 4096 implies #[trigger] self.used(ci, s2) == (s2
                    == s || s0.used(ci, s2)) by {
                    lemma_slot_split(s2);
                    if s2 / 64 == idx1 {
                        lemma_set(s0.l2_bitmap@[idx1 as int], idx2 as int, s2 % 64);
                    }
                }
                assert(self.live(ci) =~= s0.live(ci).insert(s));
                assert forall|i: int| 0 <= i < 64 implies (#[trigger] bit(self.l1_bitmap, i) <==> (i
                    >= l2_words(ci) || self.l2_bitmap@[i] == !0u64)) by {
                    if w == !0u64 {
                        lemma_set(s0.l1_bitmap, idx1 as int, i);
                    }
                }
            }
            let size = self.size as usize;
            assert(size <= 1024);
            assert(idx1 * size * 64 + idx2 * size == s * size) by (nonlinear_arith)
                requires s == 64 * idx1 + idx2;
            assert(s * size + size <= buf_size(ci)) by (nonlinear_arith)
                requires s < num_slots(ci), num_slots(ci) * size <= buf_size(ci), size >= 0;
            let idx = idx1 * size * 64 + idx2 * size;
            let r = base + idx + 8;
            proof {
                vstd::set::axiom_set_insert_len(s0.live(ci), s);
                assert(self.live(ci).len() == s0.live(ci).len() + 1);
                assert(r == user_ptr(base as int, ci, s));
                assert(self.size == slot_size(ci));
                assert(self.num == self.live(ci).len());
                assert forall|s2: int| num_slots(ci) <= s2 < 64 * l2_words(ci) implies #[trigger] self.used(ci, s2) by {
                    assert(s0.used(ci, s2));
                }
            }
            r
        } else if c < 12 {
            proof {
                lemma_first_clear(s0.l1_bitmap);
            }
            let idx1 = (!self.l1_bitmap).leading_zeros() as usize;
            self.num = self.num + 1;
            self.l1_bitmap = self.l1_bitmap | (1u64 << (63 - idx1) as u64);
            let ghost s = idx1 as int;
            proof {
                assert(!s0.used(ci, s));
                assert(s < num_slots(ci));
                assert forall|s2: int| 0 <= s2 < s implies #[trigger] s0.live(ci).contains(s2) by {}
                assert forall|s2: int| 0 <= s2 < 64 implies #[trigger] self.used(ci, s2) == (s2
                    == s || s0.used(ci, s2)) by {
                    lemma_set(s0.l1_bitmap, idx1 as int, s2);
                }
                assert(self.live(ci) =~= s0.live(ci).insert(s));
            }
            let size = self.size as usize;
            assert(s * size + size <= buf_size(ci)) by (nonlinear_arith)
                requires s < num_slots(ci), num_slots(ci) * size <= buf_size(ci), size >= 0;
            let idx = idx1 * size;
            let r = base + idx + 16;
            proof {
                vstd::set::axiom_set_insert_len(s0.live(ci), s);
                assert(self.live(ci).len() == s0.live(ci).len() + 1);
                assert(r == user_ptr(base as int, ci, s));
                assert forall|s2: int| num_slots(ci) <= s2 < 64 implies #[trigger] bit(
                    self.l1_bitmap,
                    s2,
                ) by {
                    assert(self.used(ci, s2));
                }
            }
            r
        } else {
            self.num = 1;
            proof {
                assert(!s0.live(ci).contains(0));
                assert(self.live(ci) =~= s0.live(ci).insert(0));
                vstd::set::axiom_set_insert_len(s0.live(ci), 0);
                assert(self.live(ci).len() == s0.live(ci).len() + 1);
                assert(forall|s2: int| 0 <= s2 < 0 ==> #[trigger] s0.live(ci).contains(s2));
                assert(base + 8 == user_ptr(base as int, ci, 0));
            }
            base + 8
        }
    }

    /// Frees the slot of the pointer `ptr` handed out for it.
    fn release_slot(&mut self, c: usize, base: usize, ptr: usize)
        requires
            old(self).ok(c as int),
            exists|s: int|
                old(self).live(c as int).contains(s) && ptr == user_ptr(base as int, c as int, s),
        ensures
            final(self).ok(c as int),
            final(self).prev_page() == old(self).prev_page(),
            final(self).next_page() == old(self).next_page(),
            forall|s: int|
                old(self).live(c as int).contains(s) && ptr == user_ptr(base as int, c as int, s)
                    ==> final(self).live(c as int) == old(self).live(c as int).remove(s),
            is_small(c as int) || is_large(c as int) ==> !final(self).full(c as int),
    {
        let ghost s0 = *self;
        let ghost ci = c as int;
        let ghost s = choose|s: int|
            s0.live(ci).contains(s) && ptr == user_ptr(base as int, ci, s);
        proof {
            lemma_class_table(ci);
            s0.lemma_live_finite(ci);
            assert forall|s2: int|
                s0.live(ci).contains(s2) && ptr == user_ptr(base as int, ci, s2) implies s2 == s by {
                let z = slot_size(ci);
                assert(s2 * z == s * z);
                lemma_mul_is_commutative(s2, z);
                lemma_mul_is_commutative(s, z);
                lemma_mul_equality_converse(z, s2, s);
            }
            assert(s * slot_size(ci) >= 0) by (nonlinear_arith)
                requires s >= 0, slot_size(ci) >= 0;
            assert(s0.live(ci).len() >= 1) by {
                vstd::set::axiom_set_remove_len(s0.live(ci), s);
            }
        }
        if c < 12 {
            self.num = self.num - 1;
        } else {
            self.num = 0;
        }
        if c < 7 {
            let addr = ptr - 8;
            let len = addr - base;
            let shift = 4 + c;
            proof {
                vstd::arithmetic::power2::lemma2_to64();
                vstd::bits::lemma_usize_shr_is_div(len, shift);
                assert(slot_size(ci) == vstd::arithmetic::power2::pow2(shift as nat));
                lemma_div_multiples_vanish(s, slot_size(ci));
                lemma_mul_is_commutative(s, slot_size(ci));
            }
            let idx = len >> shift;
            assert(idx == s);
            let idx1 = idx >> 6;
            let idx2 = idx & 0b111111;
            assert((idx >> 6) == idx / 64 && (idx & 0b111111) == idx % 64) by (bit_vector);
            proof {
                lemma_slot_split(s);
            }
            let vl1 = self.l1_bitmap & !(1u64 << (63 - idx1) as u64);
            let vl2 = self.l2_bitmap[idx1] & !(1u64 << (63 - idx2) as u64);
            self.l1_bitmap = vl1;
            self.l2_bitmap[idx1] = vl2;
            proof {
                assert forall|s2: int| 0 <= s2 < 4096 implies #[trigger] self.used(ci, s2) == (s2
                    != s && s0.used(ci, s2)) by {
                    lemma_slot_split(s2);
                    if s2 / 64 == idx1 {
                        lemma_clear(s0.l2_bitmap@[idx1 as int], idx2 as int, s2 % 64);
                    }
                }
                lemma_clear(s0.l2_bitmap@[idx1 as int], idx2 as int, 0);
                lemma_clear(s0.l1_bitmap, idx1 as int, 0);
                assert forall|s2: int| num_slots(ci) <= s2 < 64 * l2_words(ci) implies #[trigger] self.used(
                    ci,
                    s2,
                ) by {
                    assert(s0.used(ci, s2));
                }
                assert forall|i: int| 0 <= i < 64 implies (#[trigger] bit(self.l1_bitmap, i) <==> (i
                    >= l2_words(ci) || self.l2_bitmap@[i] == !0u64)) by {
                    lemma_clear(s0.l1_bitmap, idx1 as int, i);
                }
                assert(self.live(ci) =~= s0.live(ci).remove(s));
            }
        } else if c < 12 {
            // the slot index follows from the address
            let idx1 = (ptr - 16 - base) / self.size as usize;
            proof {
                lemma_div_multiples_vanish(s, slot_size(ci));
                lemma_mul_is_commutative(s, slot_size(ci));
            }
            assert(idx1 == s);
            let vl1 = self.l1_bitmap & !(1u64 << (63 - idx1) as u64);
            self.l1_bitmap = vl1;
            proof {
                lemma_clear(s0.l1_bitmap, idx1 as int, 0);
                assert forall|s2: int| 0 <= s2 < 64 implies #[trigger] self.used(ci, s2) == (s2 != s
                    && s0.used(ci, s2)) by {
                    lemma_clear(s0.l1_bitmap, idx1 as int, s2);
                }
                assert(self.live(ci) =~= s0.live(ci).remove(s));
                assert forall|s2: int| num_slots(ci) <= s2 < 64 implies #[trigger] bit(
                    self.l1_bitmap,
                    s2,
                ) by {
                    assert(self.used(ci, s2));
                    assert(s0.used(ci, s2));
                }
            }
        }
        proof {
            assert(self.live(ci) =~= s0.live(ci).remove(s));
            vstd::set::axiom_set_remove_len(s0.live(ci), s);
            assert(self.live(ci).len() == s0.live(ci).len() - 1);
        }
    }

    /// Whether slot `s` is taken.
    fn is_taken(&self, c: usize, s: usize) -> (r: bool)
        requires
            c < NUM_CLASSES,
            is_small(c as int) ==> s < 4096,
            is_large(c as int) ==> s < 64,
        ensures
            r == self.used(c as int, s as int),
    {
        if c < 7 {
            let i = s / 64;
            let j = s % 64;
            (self.l2_bitmap[i] >> (63 - j) as u64) & 1 == 1
        } else if c < 12 {
            (self.l1_bitmap >> (63 - s) as u64) & 1 == 1
        } else {
            self.num == 1
        }
    }

    fn is_full(&self, c: usize) -> (r: bool)
        ensures
            r == self.full(c as int),
    {
        if c < 12 {
            self.l1_bitmap == !0
        } else {
            true
        }
    }

    fn is_empty(&self) -> (r: bool)
        ensures
            r == (self.count() == 0),
    {
        self.num == 0
    }

    fn next(&self) -> (r: Option<usize>)
        ensures
            r == self.next_page(),
    {
        self.next
    }

    fn set_next(&mut self, next: Option<usize>)
        ensures
            *final(self) == (SlabPage { next, ..*old(self) }),
    {
        self.next = next;
    }

    fn prev(&self) -> (r: Option<usize>)
        ensures
            r == self.prev_page(),
    {
        self.prev
    }

    fn set_prev(&mut self, prev: Option<usize>)
        ensures
            *final(self) == (SlabPage { prev, ..*old(self) }),
    {
        self.prev = prev;
    }
}

/// Nominal slot size of class `c`.
fn class_size(c: usize) -> (r: u32)
    requires
        c < NUM_CLASSES,
    ensures
        r == slot_size(c as int),
{
    if c == 0 { 16 } else if c == 1 { 32 } else if c == 2 { 64 } else if c == 3 { 128 } else if c
        == 4 { 256 } else if c == 5 { 512 } else if c == 6 { 1024 } else if c == 7 { 2040 } else if c
        == 8 { 4088 } else if c == 9 { 8184 } else if c == 10 { 16376 } else if c == 11 { 32752 } else {
        65512
    }
}

/// Number of words of the second bitmap level of small class `c`.
fn class_l2_words(c: usize) -> (r: usize)
    requires
        c < 7,
    ensures
        r == l2_words(c as int),
{
    if c == 0 { 64 } else if c == 1 { 32 } else if c == 2 { 16 } else if c == 3 { 8 } else if c
        == 4 { 4 } else if c == 5 { 2 } else { 1 }
}

/// Number of slots in a page of class `c`.
fn class_slots(c: usize) -> (r: usize)
    requires
        c < NUM_CLASSES,
    ensures
        r == num_slots(c as int),
{
    if c == 0 { 4062 } else if c == 1 { 2039 } else if c == 2 { 1021 } else if c == 3 { 511 } else if c
        == 4 { 255 } else if c == 5 { 127 } else if c == 6 { 63 } else if c == 7 { 32 } else if c == 8 {
        16 } else if c == 9 { 8 } else if c == 10 { 4 } else if c == 11 { 2 } else { 1 }
}

/// Whether `s` lists the pages of a doubly-linked list whose first page is
/// `head`, each page linking to its neighbours in `s`.
#[verifier::opaque]
pub open spec fn list_ok(pages: Map<usize, SlabPage>, s: Seq<usize>, head: Option<usize>) -> bool {
    &&& head == (if s.len() == 0 {
        None
    } else {
        Some(s[0])
    })
    &&& s.no_duplicates()
    &&& forall|k: int| 0 <= k < s.len() ==> pages.contains_key(#[trigger] s[k])
    &&& forall|k: int|
        0 <= k < s.len() ==> pages[#[trigger] s[k]].prev_page() == (if k == 0 {
            None
        } else {
            Some(s[k - 1])
        })
    &&& forall|k: int|
        0 <= k < s.len() ==> pages[#[trigger] s[k]].next_page() == (if k + 1 == s.len() {
            None
        } else {
            Some(s[k + 1])
        })
}

/// What a well linked list says of its `k`-th page.
proof fn lemma_list_at(p: Map<usize, SlabPage>, s: Seq<usize>, h: Option<usize>, k: int)
    requires
        list_ok(p, s, h),
        0 <= k < s.len(),
    ensures
        h == Some(s[0]),
        s.no_duplicates(),
        p.contains_key(s[k]),
        p[s[k]].prev_page() == (if k == 0 {
            None
        } else {
            Some(s[k - 1])
        }),
        p[s[k]].next_page() == (if k + 1 == s.len() {
            None
        } else {
            Some(s[k + 1])
        }),
        k > 0 ==> p.contains_key(s[k - 1]),
        k + 1 < s.len() ==> p.contains_key(s[k + 1]),
{
    reveal(list_ok);
}

proof fn lemma_list_empty_head(p: Map<usize, SlabPage>, s: Seq<usize>, h: Option<usize>)
    requires
        list_ok(p, s, h),
    ensures
        h is None <==> s.len() == 0,
        s.len() > 0 ==> h == Some(s[0]) && p.contains_key(s[0]),
        s.no_duplicates(),
{
    reveal(list_ok);
}

/// Whether page `x` has the same links in `p1` as in `p0`.
pub open spec fn same_links(p0: Map<usize, SlabPage>, p1: Map<usize, SlabPage>, x: usize) -> bool {
    &&& p1.contains_key(x)
    &&& p1[x].prev_page() == p0[x].prev_page()
    &&& p1[x].next_page() == p0[x].next_page()
}

proof fn lemma_list_frame(p0: Map<usize, SlabPage>, p1: Map<usize, SlabPage>, t: Seq<usize>, h: Option<usize>)
    requires
        list_ok(p0, t, h),
        forall|i: int| 0 <= i < t.len() ==> same_links(p0, p1, #[trigger] t[i]),
    ensures
        list_ok(p1, t, h),
{
    reveal(list_ok);
}

#[verifier::rlimit(60)]
proof fn lemma_list_remove(
    p0: Map<usize, SlabPage>,
    p1: Map<usize, SlabPage>,
    s: Seq<usize>,
    k: int,
    h0: Option<usize>,
    h1: Option<usize>,
)
    requires
        list_ok(p0, s, h0),
        0 <= k < s.len(),
        forall|i: int| 0 <= i < s.len() && i != k - 1 && i != k + 1 ==> same_links(p0, p1, #[trigger] s[i]),
        k > 0 ==> {
            &&& p1.contains_key(s[k - 1])
            &&& p1[s[k - 1]].prev_page() == p0[s[k - 1]].prev_page()
            &&& p1[s[k - 1]].next_page() == (if k + 1 < s.len() { Some(s[k + 1]) } else { None })
        },
        k + 1 < s.len() ==> {
            &&& p1.contains_key(s[k + 1])
            &&& p1[s[k + 1]].next_page() == p0[s[k + 1]].next_page()
            &&& p1[s[k + 1]].prev_page() == (if k > 0 { Some(s[k - 1]) } else { None })
        },
        h1 == (if k == 0 { if k + 1 < s.len() { Some(s[1]) } else { None } } else { h0 }),
    ensures
        list_ok(p1, s.remove(k), h1),
{
    reveal(list_ok);
    let s2 = s.remove(k);
    assert forall|i: int, j: int| 0 <= i < j < s2.len() implies s2[i] != s2[j] by {
        if i >= k {
            assert(s2[i] == s[i + 1]);
        }
        if j >= k {
            assert(s2[j] == s[j + 1]);
        }
    }
    assert forall|i: int| 0 <= i < s2.len() implies p1.contains_key(#[trigger] s2[i]) && p1[s2[i]].prev_page() == (
    if i == 0 {
        None
    } else {
        Some(s2[i - 1])
    }) && p1[s2[i]].next_page() == (if i + 1 == s2.len() {
        None
    } else {
        Some(s2[i + 1])
    }) by {
        if i < k {
            assert(s2[i] == s[i]);
        } else {
            assert(s2[i] == s[i + 1]);
        }
    }
}

proof fn lemma_list_push(
    p0: Map<usize, SlabPage>,
    p1: Map<usize, SlabPage>,
    s: Seq<usize>,
    b: usize,
    h0: Option<usize>,
)
    requires
        list_ok(p0, s, h0),
        !s.contains(b),
        forall|i: int| 1 <= i < s.len() ==> same_links(p0, p1, #[trigger] s[i]),
        s.len() > 0 ==> {
            &&& p1.contains_key(s[0])
            &&& p1[s[0]].next_page() == p0[s[0]].next_page()
            &&& p1[s[0]].prev_page() == Some(b)
        },
        p1.contains_key(b),
        p1[b].prev_page() is None,
        p1[b].next_page() == h0,
    ensures
        list_ok(p1, seq![b].add(s), Some(b)),
{
    reveal(list_ok);
    let s2 = seq![b].add(s);
    assert forall|i: int, j: int| 0 <= i < j < s2.len() implies s2[i] != s2[j] by {
        assert(s2[j] == s[j - 1]);
        if i > 0 {
            assert(s2[i] == s[i - 1]);
        }
    }
    assert forall|i: int| 0 <= i < s2.len() implies p1.contains_key(#[trigger] s2[i]) && p1[s2[i]].prev_page() == (
    if i == 0 {
        None
    } else {
        Some(s2[i - 1])
    }) && p1[s2[i]].next_page() == (if i + 1 == s2.len() {
        None
    } else {
        Some(s2[i + 1])
    }) by {
        if i > 0 {
            assert(s2[i] == s[i - 1]);
        }
    }
}

/// The lists after page `b` of class `c`, first of its partial list, takes an
/// object and then holds `n`: a page that fills moves to the front of the
/// full list.
pub open spec fn lists_after_take(l: Seq<Seq<usize>>, b: usize, c: int, n: int) -> Seq<Seq<usize>> {
    if n == num_slots(c) {
        l.update(c, l[c].remove(0)).update(c + NUM_CLASSES, seq![b].add(l[c + NUM_CLASSES]))
    } else {
        l
    }
}

/// The lists after a fresh page `b` of class `c` takes its first object: it
/// goes to the front of the full list if that fills it, else of the partial
/// list.
pub open spec fn lists_after_fresh(l: Seq<Seq<usize>>, b: usize, c: int) -> Seq<Seq<usize>> {
    if num_slots(c) == 1 {
        l.update(c + NUM_CLASSES, seq![b].add(l[c + NUM_CLASSES]))
    } else {
        l.update(c, seq![b].add(l[c]))
    }
}

/// The lists after page `b` of class `c`, holding `n` objects, frees one: a
/// page that empties leaves its list; a full page that does not moves to the
/// front of the partial list; any other stays.
pub open spec fn lists_after_free(l: Seq<Seq<usize>>, b: usize, c: int, n: int) -> Seq<Seq<usize>> {
    let id = if n == num_slots(c) {
        c + NUM_CLASSES
    } else {
        c
    };
    let rest = l.update(id, l[id].remove(l[id].index_of(b)));
    if n == 1 {
        rest
    } else if id == c + NUM_CLASSES {
        rest.update(c, seq![b].add(l[c]))
    } else {
        l
    }
}

/// Taking an object from the first partial page of class `c` and freeing it
/// again leaves the lists as they were.
pub proof fn lemma_lists_take_free(l: Seq<Seq<usize>>, b: usize, c: int, n: int)
    requires
        0 <= c < NUM_CLASSES,
        l.len() == 2 * NUM_CLASSES,
        l[c].len() > 0,
        l[c][0] == b,
        !l[c + NUM_CLASSES].contains(b),
        2 <= n <= num_slots(c),
    ensures
        lists_after_free(lists_after_take(l, b, c, n), b, c, n) == l,
{
    let f = c + NUM_CLASSES;
    if n == num_slots(c) {
        let l1 = lists_after_take(l, b, c, n);
        let t = seq![b].add(l[f]);
        assert(l1[f] == t);
        assert(t[0] == b);
        let i = t.index_of(b);
        assert(t.contains(b));
        if i != 0 {
            assert(l[f][i - 1] == b);
        }
        assert(t.remove(0) =~= l[f]);
        assert(seq![b].add(l[c].remove(0)) =~= l[c]);
        assert(lists_after_free(l1, b, c, n) =~= l);
    }
}

/// Giving a fresh page of class `c` its first object and freeing it again
/// leaves the lists as they were.
pub proof fn lemma_lists_fresh_free(l: Seq<Seq<usize>>, b: usize, c: int)
    requires
        0 <= c < NUM_CLASSES,
        l.len() == 2 * NUM_CLASSES,
        !l[c].contains(b),
        !l[c + NUM_CLASSES].contains(b),
    ensures
        lists_after_free(lists_after_fresh(l, b, c), b, c, 1) == l,
{
    let id = if num_slots(c) == 1 { c + NUM_CLASSES } else { c };
    let t = seq![b].add(l[id]);
    assert(lists_after_fresh(l, b, c)[id] == t);
    assert(t[0] == b);
    let i = t.index_of(b);
    assert(t.contains(b));
    if i != 0 {
        assert(l[id][i - 1] == b);
    }
    assert(t.remove(0) =~= l[id]);
    assert(lists_after_free(lists_after_fresh(l, b, c), b, c, 1) =~= l);
}

/// Whether two page records differ at most in their links.
pub closed spec fn same_but_links(a: SlabPage, b: SlabPage) -> bool {
    a == (SlabPage { prev: a.prev, next: a.next, ..b })
}

/// The pools of every class over a page source.
///
/// The page records are kept in a `HashMapWithView` of std beside the heap,
/// not in the pages themselves: the library does not touch the heap's bytes.
///
/// List `c` (for class `c`) holds the pages of the class with a free slot,
/// list `NUM_CLASSES + c` those without one. The records of the pages stand
/// in `pages`, keyed by page base.
pub struct SlabAllocator<PAGEALLOC: MemAlloc> {
    pub page_alloc: PAGEALLOC,
    pages: HashMapWithView<usize, SlabPage>,
    partial: [Option<usize>; NUM_CLASSES],
    full: [Option<usize>; NUM_CLASSES],
    lists: Ghost<Seq<Seq<usize>>>,
    place: Ghost<Map<usize, int>>,
}

impl<PAGEALLOC: MemAlloc> SlabAllocator<PAGEALLOC> {
    /// The first page of list `id`.
    pub closed spec fn head(&self, id: int) -> Option<usize> {
        if id < NUM_CLASSES {
            self.partial@[id]
        } else {
            self.full@[id - NUM_CLASSES]
        }
    }

    /// The lists are well linked.
    pub closed spec fn links_ok(&self) -> bool {
        &&& self.lists@.len() == 2 * NUM_CLASSES
        &&& forall|id: int|
            0 <= id < 2 * NUM_CLASSES ==> list_ok(self.pages@, #[trigger] self.lists@[id], self.head(id))
    }

    /// Every listed page is placed in the list that holds it, and no other.
    pub closed spec fn placed(&self) -> bool {
        &&& forall|id: int, k: int|
            0 <= id < 2 * NUM_CLASSES && 0 <= k < self.lists@[id].len() ==> self.place@.contains_key(
                #[trigger] self.lists@[id][k],
            ) && self.place@[self.lists@[id][k]] == id
        &&& self.pages@.dom() == self.place@.dom()
        &&& forall|b: usize| #[trigger]
            self.place@.contains_key(b) ==> 0 <= self.place@[b] < 2 * NUM_CLASSES
                && self.lists@[self.place@[b]].contains(b)
    }

    /// No page is in two lists.
    pub closed spec fn disjoint_lists(&self) -> bool {
        forall|id1: int, id2: int, x: usize|
            0 <= id1 < 2 * NUM_CLASSES && 0 <= id2 < 2 * NUM_CLASSES && #[trigger] self.lists@[id1].contains(x)
                && #[trigger] self.lists@[id2].contains(x) ==> id1 == id2
    }

    proof fn lemma_placed_disjoint(&self)
        requires
            self.placed(),
        ensures
            self.disjoint_lists(),
    {
        assert forall|id1: int, id2: int, x: usize|
            0 <= id1 < 2 * NUM_CLASSES && 0 <= id2 < 2 * NUM_CLASSES && #[trigger] self.lists@[id1].contains(x)
                && #[trigger] self.lists@[id2].contains(x) implies id1 == id2 by {
            let k1 = choose|k: int| 0 <= k < self.lists@[id1].len() && self.lists@[id1][k] == x;
            let k2 = choose|k: int| 0 <= k < self.lists@[id2].len() && self.lists@[id2][k] == x;
            assert(self.place@[self.lists@[id1][k1]] == id1);
            assert(self.place@[self.lists@[id2][k2]] == id2);
        }
    }

    fn set_head(&mut self, id: usize, h: Option<usize>)
        requires
            id < 2 * NUM_CLASSES,
        ensures
            final(self).head(id as int) == h,
            forall|j: int|
                0 <= j < 2 * NUM_CLASSES && j != id ==> #[trigger] final(self).head(j) == old(
                    self,
                ).head(j),
            final(self).pages@ == old(self).pages@,
            final(self).lists == old(self).lists,
            final(self).place == old(self).place,
            final(self).page_alloc == old(self).page_alloc,
    {
        if id < NUM_CLASSES {
            self.partial[id] = h;
        } else {
            self.full[id - NUM_CLASSES] = h;
        }
    }

    fn get_head(&self, id: usize) -> (r: Option<usize>)
        requires
            id < 2 * NUM_CLASSES,
        ensures
            r == self.head(id as int),
    {
        if id < NUM_CLASSES {
            self.partial[id]
        } else {
            self.full[id - NUM_CLASSES]
        }
    }

    /// Takes page `b` out of list `id`, mending the links of its neighbours.
    fn unlink(&mut self, id: usize, b: usize)
        requires
            old(self).links_ok(),
            old(self).disjoint_lists(),
            id < 2 * NUM_CLASSES,
            old(self).lists@[id as int].contains(b),
        ensures
            final(self).links_ok(),
            final(self).disjoint_lists(),
            forall|j: int| 0 <= j < 2 * NUM_CLASSES ==> !#[trigger] final(self).lists@[j].contains(b),
            final(self).page_alloc == old(self).page_alloc,
            final(self).place == old(self).place,
            final(self).pages@.dom() == old(self).pages@.dom(),
            forall|x: usize| #[trigger]
                final(self).pages@.contains_key(x) ==> same_but_links(
                    final(self).pages@[x],
                    old(self).pages@[x],
                ),
            final(self).lists@ == old(self).lists@.update(
                id as int,
                old(self).lists@[id as int].remove(old(self).lists@[id as int].index_of(b)),
            ),
    {
        let ghost s0 = *self;
        let ghost s = self.lists@[id as int];
        let ghost k = s.index_of(b);
        proof {
            assert(0 <= k < s.len() && s[k] == b);
            assert(list_ok(s0.pages@, s, s0.head(id as int)));
            lemma_list_at(s0.pages@, s, s0.head(id as int), k);
            self.lists@ = s0.lists@.update(id as int, s.remove(k));
        }
        let rec = *self.pages.get(&b).unwrap();
        let next = rec.next();
        let prev = rec.prev();
        match prev {
            Some(p) => {
                let mut pr = *self.pages.get(&p).unwrap();
                pr.set_next(next);
                self.pages.insert(p, pr);
            },
            None => {
                self.set_head(id, next);
            },
        }
        let ghost s1 = *self;
        assert(forall|j: int|
            0 <= j < 2 * NUM_CLASSES && j != id ==> #[trigger] s1.head(j) == s0.head(j));
        match next {
            Some(n) => {
                let mut nr = *self.pages.get(&n).unwrap();
                nr.set_prev(prev);
                self.pages.insert(n, nr);
            },
            None => {},
        }
        proof {
            let s2 = s.remove(k);
            assert(list_ok(s0.pages@, s, s0.head(id as int)));
            assert forall|x: usize| #[trigger]
                self.pages@.contains_key(x) implies same_but_links(self.pages@[x], s0.pages@[x]) by {}
            assert forall|j: int| 0 <= j < 2 * NUM_CLASSES implies list_ok(
                self.pages@,
                #[trigger] self.lists@[j],
                self.head(j),
            ) by {
                assert(list_ok(s0.pages@, s0.lists@[j], s0.head(j)));
                if j == id {
                    assert forall|i: int|
                        0 <= i < s.len() && i != k - 1 && i != k + 1 implies same_links(
                        s0.pages@,
                        self.pages@,
                        #[trigger] s[i],
                    ) by {
                        lemma_list_at(s0.pages@, s, s0.head(j), i);
                    }
                    lemma_list_remove(s0.pages@, self.pages@, s, k, s0.head(j), self.head(j));
                } else {
                    let t = s0.lists@[j];
                    assert forall|i: int| 0 <= i < t.len() implies same_links(
                        s0.pages@,
                        self.pages@,
                        #[trigger] t[i],
                    ) by {
                        lemma_list_at(s0.pages@, t, s0.head(j), i);
                        if k > 0 && t[i] == s[k - 1] {
                            assert(s0.lists@[j].contains(t[i]) && s0.lists@[id as int].contains(t[i]));
                        }
                        if k + 1 < s.len() && t[i] == s[k + 1] {
                            assert(s0.lists@[j].contains(t[i]) && s0.lists@[id as int].contains(t[i]));
                        }
                    }
                    assert(self.partial == s1.partial && self.full == s1.full);
                    assert(s1.head(j) == s0.head(j));
                    assert(self.head(j) == s0.head(j));
                    lemma_list_frame(s0.pages@, self.pages@, t, self.head(j));
                }
            }
            assert forall|j: int| 0 <= j < 2 * NUM_CLASSES implies !#[trigger] self.lists@[j].contains(b) by {
                if j == id {
                    if s2.contains(b) {
                        let i = choose|i: int| 0 <= i < s2.len() && s2[i] == b;
                        if i < k {
                            assert(s[i] == s[k]);
                        } else {
                            assert(s[i + 1] == s[k]);
                        }
                    }
                } else {
                    if s0.lists@[j].contains(b) {
                        assert(s0.lists@[id as int].contains(b));
                    }
                }
            }
            assert forall|id1: int, id2: int, x: usize|
                0 <= id1 < 2 * NUM_CLASSES && 0 <= id2 < 2 * NUM_CLASSES && #[trigger] self.lists@[id1].contains(x)
                    && #[trigger] self.lists@[id2].contains(x) implies id1 == id2 by {
                if self.lists@[id1].contains(x) {
                    let i = choose|i: int| 0 <= i < self.lists@[id1].len() && self.lists@[id1][i] == x;
                    if id1 == id && i >= k {
                        assert(s[i + 1] == x);
                    }
                    assert(s0.lists@[id1].contains(x));
                }
                if self.lists@[id2].contains(x) {
                    let i = choose|i: int| 0 <= i < self.lists@[id2].len() && self.lists@[id2][i] == x;
                    if id2 == id && i >= k {
                        assert(s[i + 1] == x);
                    }
                    assert(s0.lists@[id2].contains(x));
                }
            }
        }
    }

    /// Puts page `b`, listed nowhere, at the front of list `id`.
    fn push_front(&mut self, id: usize, b: usize)
        requires
            old(self).links_ok(),
            old(self).disjoint_lists(),
            id < 2 * NUM_CLASSES,
            old(self).pages@.contains_key(b),
            forall|j: int| 0 <= j < 2 * NUM_CLASSES ==> !#[trigger] old(self).lists@[j].contains(b),
        ensures
            final(self).links_ok(),
            final(self).disjoint_lists(),
            final(self).page_alloc == old(self).page_alloc,
            final(self).place == old(self).place,
            final(self).pages@.dom() == old(self).pages@.dom(),
            forall|x: usize| #[trigger]
                final(self).pages@.contains_key(x) ==> same_but_links(
                    final(self).pages@[x],
                    old(self).pages@[x],
                ),
            final(self).lists@ == old(self).lists@.update(
                id as int,
                seq![b].add(old(self).lists@[id as int]),
            ),
    {
        let ghost s0 = *self;
        let ghost s = self.lists@[id as int];
        proof {
            assert(list_ok(s0.pages@, s, s0.head(id as int)));
            lemma_list_empty_head(s0.pages@, s, s0.head(id as int));
            self.lists@ = s0.lists@.update(id as int, seq![b].add(s));
        }
        let head = self.get_head(id);
        let mut rec = *self.pages.get(&b).unwrap();
        rec.set_prev(None);
        rec.set_next(head);
        match head {
            Some(h) => {
                let mut hr = *self.pages.get(&h).unwrap();
                hr.set_prev(Some(b));
                self.pages.insert(h, hr);
            },
            None => {},
        }
        self.pages.insert(b, rec);
        self.set_head(id, Some(b));
        proof {
            let s2 = seq![b].add(s);
            assert(list_ok(s0.pages@, s, s0.head(id as int)));
            assert forall|x: usize| #[trigger]
                self.pages@.contains_key(x) implies same_but_links(self.pages@[x], s0.pages@[x]) by {}
            assert forall|j: int| 0 <= j < 2 * NUM_CLASSES implies list_ok(
                self.pages@,
                #[trigger] self.lists@[j],
                self.head(j),
            ) by {
                assert(list_ok(s0.pages@, s0.lists@[j], s0.head(j)));
                if j == id {
                    assert(!s.contains(b));
                    assert forall|i: int| 1 <= i < s.len() implies same_links(
                        s0.pages@,
                        self.pages@,
                        #[trigger] s[i],
                    ) by {
                        lemma_list_at(s0.pages@, s, s0.head(j), i);
                        assert(s0.lists@[id as int].contains(s[i]));
                    }
                    lemma_list_push(s0.pages@, self.pages@, s, b, s0.head(j));
                } else {
                    let t = s0.lists@[j];
                    assert forall|i: int| 0 <= i < t.len() implies same_links(
                        s0.pages@,
                        self.pages@,
                        #[trigger] t[i],
                    ) by {
                        lemma_list_at(s0.pages@, t, s0.head(j), i);
                        assert(s0.lists@[j].contains(t[i]));
                        assert(t[i] != b);
                        if s.len() > 0 && t[i] == s[0] {
                            assert(s0.lists@[id as int].contains(t[i]));
                            assert(s0.lists@[j].contains(t[i]));
                        }
                    }
                    assert(self.head(j) == s0.head(j));
                    lemma_list_frame(s0.pages@, self.pages@, t, self.head(j));
                }
            }
            assert forall|id1: int, id2: int, x: usize|
                0 <= id1 < 2 * NUM_CLASSES && 0 <= id2 < 2 * NUM_CLASSES && #[trigger] self.lists@[id1].contains(x)
                    && #[trigger] self.lists@[id2].contains(x) implies id1 == id2 by {
                if x != b {
                    if self.lists@[id1].contains(x) {
                        let i = choose|i: int| 0 <= i < self.lists@[id1].len() && self.lists@[id1][i] == x;
                        if id1 == id {
                            assert(s[i - 1] == x);
                        }
                        assert(s0.lists@[id1].contains(x));
                    }
                    if self.lists@[id2].contains(x) {
                        let i = choose|i: int| 0 <= i < self.lists@[id2].len() && self.lists@[id2][i] == x;
                        if id2 == id {
                            assert(s[i - 1] == x);
                        }
                        assert(s0.lists@[id2].contains(x));
                    }
                } else {
                    if id1 != id {
                        assert(s0.lists@[id1].contains(x));
                    }
                    if id2 != id {
                        assert(s0.lists@[id2].contains(x));
                    }
                }
            }
        }
    }
}

impl SlabPage {
    /// Records that differ only in their links describe the same page.
    proof fn lemma_same_but_links(a: SlabPage, b: SlabPage, c: int)
        requires
            same_but_links(a, b),
        ensures
            a.ok(c) == b.ok(c),
            a.full(c) == b.full(c),
            a.count() == b.count(),
            a.live(c) == b.live(c),
            a.has_room(c) == b.has_room(c),
    {
        assert(a.l1_bitmap == b.l1_bitmap && a.l2_bitmap == b.l2_bitmap && a.num == b.num && a.size
            == b.size);
    }
}

impl<PAGEALLOC: MemAlloc> SlabAllocator<PAGEALLOC> {
    /// The page source.
    pub closed spec fn source(&self) -> PAGEALLOC {
        self.page_alloc
    }

    /// The class of page `b`.
    pub closed spec fn class_of(&self, b: usize) -> int {
        self.place@[b] % (NUM_CLASSES as int)
    }

    /// Page base to the slots taken in it, for every page the pools hold.
    pub closed spec fn slots(&self) -> Map<usize, Set<int>> {
        Map::new(|b: usize| self.place@.contains_key(b), |b: usize| self.pages@[b].live(self.class_of(b)))
    }

    /// Page base to class, for every page the pools hold.
    pub closed spec fn classes(&self) -> Map<usize, int> {
        Map::new(|b: usize| self.place@.contains_key(b), |b: usize| self.class_of(b))
    }

    /// The lists of the pools, first page first: entry `c` lists the pages
    /// of class `c` with a free slot, entry `NUM_CLASSES + c` its full pages.
    pub closed spec fn pool_lists(&self) -> Seq<Seq<usize>> {
        self.lists@
    }

    /// The heads are the first pages of the lists; each listed page is a page
    /// of the pools of the list's class, full exactly when it is in a full
    /// list.
    pub proof fn lemma_lists(&self)
        requires
            self.inv(),
        ensures
            self.pool_lists().len() == 2 * NUM_CLASSES,
            forall|c: int|
                0 <= c < NUM_CLASSES ==> #[trigger] self.partial_head(c) == (if self.pool_lists()[c].len()
                    == 0 {
                    None
                } else {
                    Some(self.pool_lists()[c][0])
                }),
            forall|c: int|
                0 <= c < NUM_CLASSES ==> #[trigger] self.full_head(c) == (if self.pool_lists()[c
                    + NUM_CLASSES].len() == 0 {
                    None
                } else {
                    Some(self.pool_lists()[c + NUM_CLASSES][0])
                }),
            forall|id: int, k: int|
                0 <= id < 2 * NUM_CLASSES && 0 <= k < self.pool_lists()[id].len() ==> {
                    let b = #[trigger] self.pool_lists()[id][k];
                    &&& self.slots().contains_key(b)
                    &&& self.classes()[b] == id % (NUM_CLASSES as int)
                    &&& (id >= NUM_CLASSES <==> self.slots()[b].len() == num_slots(id % (NUM_CLASSES as int)))
                },
    {
        assert forall|id: int| 0 <= id < 2 * NUM_CLASSES implies #[trigger] self.head(id) == (if self.lists@[id].len() == 0 {
            None
        } else {
            Some(self.lists@[id][0])
        }) by {
            assert(list_ok(self.pages@, self.lists@[id], self.head(id)));
            lemma_list_empty_head(self.pages@, self.lists@[id], self.head(id));
        }
        assert forall|c: int| 0 <= c < NUM_CLASSES implies #[trigger] self.full_head(c) == (if self.pool_lists()[c
            + NUM_CLASSES].len() == 0 {
            None
        } else {
            Some(self.pool_lists()[c + NUM_CLASSES][0])
        }) by {
            assert(self.head(c + NUM_CLASSES) == self.full@[c]);
        }
        assert forall|c: int| 0 <= c < NUM_CLASSES implies #[trigger] self.partial_head(c) == (if self.pool_lists()[c].len()
            == 0 {
            None
        } else {
            Some(self.pool_lists()[c][0])
        }) by {
            assert(self.head(c) == self.partial@[c]);
        }
        assert forall|id: int, k: int|
            0 <= id < 2 * NUM_CLASSES && 0 <= k < self.pool_lists()[id].len() implies {
                let b = #[trigger] self.pool_lists()[id][k];
                &&& self.slots().contains_key(b)
                &&& self.classes()[b] == id % (NUM_CLASSES as int)
                &&& (id >= NUM_CLASSES <==> self.slots()[b].len() == num_slots(id % (NUM_CLASSES as int)))
            } by {
            let b = self.lists@[id][k];
            assert(self.place@.contains_key(b));
            let c = id % (NUM_CLASSES as int);
            self.pages@[b].lemma_full_count(c);
        }
    }

    /// The first page of the list of pages of class `c` with a free slot.
    pub closed spec fn partial_head(&self, c: int) -> Option<usize> {
        self.partial@[c]
    }

    /// The first page of the list of full pages of class `c`.
    pub closed spec fn full_head(&self, c: int) -> Option<usize> {
        self.full@[c]
    }

    /// The pools are sound: lists well linked, every page listed once, by
    /// class and by whether it is full, holding at least one object, and a
    /// block of the page source.
    pub closed spec fn inv(&self) -> bool {
        &&& self.page_alloc.wf()
        &&& self.links_ok()
        &&& self.placed()
        &&& forall|b: usize| #[trigger]
            self.place@.contains_key(b) ==> {
                let id = self.place@[b];
                let c = id % (NUM_CLASSES as int);
                &&& self.pages@[b].ok(c)
                &&& self.pages@[b].full(c) == (id >= NUM_CLASSES)
                &&& self.pages@[b].count() > 0
                &&& self.page_alloc.blocks().contains_key(b as int)
            }
    }

    /// After `b` leaves list `id1` for list `id2`, every page is still placed.
    proof fn lemma_moved(s0: &Self, s1: &Self, b: usize, id1: int, id2: int, k: int)
        requires
            s0.placed(),
            s0.links_ok(),
            0 <= id1 < 2 * NUM_CLASSES,
            0 <= id2 < 2 * NUM_CLASSES,
            id1 != id2,
            0 <= k < s0.lists@[id1].len(),
            s0.lists@[id1][k] == b,
            s1.lists@ == s0.lists@.update(id1, s0.lists@[id1].remove(k)).update(
                id2,
                seq![b].add(s0.lists@[id2]),
            ),
            s1.place@ == s0.place@.insert(b, id2),
            s1.pages@.dom() == s0.pages@.dom(),
        ensures
            s1.placed(),
    {
        let l1 = s0.lists@[id1];
        assert(list_ok(s0.pages@, l1, s0.head(id1)));
        lemma_list_empty_head(s0.pages@, l1, s0.head(id1));
        assert forall|id: int, j: int|
            0 <= id < 2 * NUM_CLASSES && 0 <= j < s1.lists@[id].len() implies s1.place@.contains_key(
            #[trigger] s1.lists@[id][j],
        ) && s1.place@[s1.lists@[id][j]] == id by {
            if id == id1 {
                if j < k {
                    assert(s1.lists@[id][j] == l1[j]);
                } else {
                    assert(s1.lists@[id][j] == l1[j + 1]);
                }
                assert(s0.place@[s1.lists@[id][j]] == id);
            } else if id == id2 {
                if j > 0 {
                    assert(s1.lists@[id][j] == s0.lists@[id][j - 1]);
                    assert(s0.place@[s1.lists@[id][j]] == id);
                }
            } else {
                assert(s0.place@[s1.lists@[id][j]] == id);
            }
        }
        assert forall|x: usize| #[trigger]
            s1.place@.contains_key(x) implies 0 <= s1.place@[x] < 2 * NUM_CLASSES
            && s1.lists@[s1.place@[x]].contains(x) by {
            if x == b {
                assert(s1.lists@[id2][0] == b);
            } else {
                let id = s0.place@[x];
                assert(s0.lists@[id].contains(x));
                let j = choose|j: int| 0 <= j < s0.lists@[id].len() && s0.lists@[id][j] == x;
                if id == id1 {
                    assert(l1.no_duplicates());
                    assert(j != k);
                    if j < k {
                        assert(s1.lists@[id][j] == x);
                    } else {
                        assert(s1.lists@[id][j - 1] == x);
                    }
                } else if id == id2 {
                    assert(s1.lists@[id][j + 1] == x);
                } else {
                    assert(s1.lists@[id][j] == x);
                }
            }
        }
        assert(s0.place@.contains_key(b)) by {
            assert(s0.lists@[id1].contains(b));
        }
        assert(s1.place@.dom() =~= s0.place@.dom());
    }

    /// After `b` leaves list `id1` and the pools, every page is still placed.
    proof fn lemma_dropped(s0: &Self, s1: &Self, b: usize, id1: int, k: int)
        requires
            s0.placed(),
            s0.links_ok(),
            0 <= id1 < 2 * NUM_CLASSES,
            0 <= k < s0.lists@[id1].len(),
            s0.lists@[id1][k] == b,
            s1.lists@ == s0.lists@.update(id1, s0.lists@[id1].remove(k)),
            s1.place@ == s0.place@.remove(b),
            s1.pages@.dom() == s0.pages@.dom().remove(b),
        ensures
            s1.placed(),
    {
        let l1 = s0.lists@[id1];
        assert(list_ok(s0.pages@, l1, s0.head(id1)));
        lemma_list_empty_head(s0.pages@, l1, s0.head(id1));
        assert forall|id: int, j: int|
            0 <= id < 2 * NUM_CLASSES && 0 <= j < s1.lists@[id].len() implies s1.place@.contains_key(
            #[trigger] s1.lists@[id][j],
        ) && s1.place@[s1.lists@[id][j]] == id by {
            if id == id1 {
                if j < k {
                    assert(s1.lists@[id][j] == l1[j]);
                } else {
                    assert(s1.lists@[id][j] == l1[j + 1]);
                }
            }
            assert(s0.place@[s1.lists@[id][j]] == id);
            if s1.lists@[id][j] == b {
                assert(s0.lists@[id].contains(b));
                assert(s0.place@[b] == id1);
            }
        }
        assert forall|x: usize| #[trigger]
            s1.place@.contains_key(x) implies 0 <= s1.place@[x] < 2 * NUM_CLASSES
            && s1.lists@[s1.place@[x]].contains(x) by {
            let id = s0.place@[x];
            assert(s0.lists@[id].contains(x));
            let j = choose|j: int| 0 <= j < s0.lists@[id].len() && s0.lists@[id][j] == x;
            if id == id1 {
                if j < k {
                    assert(s1.lists@[id][j] == x);
                } else {
                    assert(s1.lists@[id][j - 1] == x);
                }
            } else {
                assert(s1.lists@[id][j] == x);
            }
        }
        assert(s1.pages@.dom() =~= s1.place@.dom());
    }

    /// After a new page `b` joins list `id2`, every page is still placed.
    proof fn lemma_added(s0: &Self, s1: &Self, b: usize, id2: int)
        requires
            s0.placed(),
            s0.links_ok(),
            0 <= id2 < 2 * NUM_CLASSES,
            !s0.place@.contains_key(b),
            s1.lists@ == s0.lists@.update(id2, seq![b].add(s0.lists@[id2])),
            s1.place@ == s0.place@.insert(b, id2),
            s1.pages@.dom() == s0.pages@.dom().insert(b),
        ensures
            s1.placed(),
    {
        assert forall|id: int, j: int|
            0 <= id < 2 * NUM_CLASSES && 0 <= j < s1.lists@[id].len() implies s1.place@.contains_key(
            #[trigger] s1.lists@[id][j],
        ) && s1.place@[s1.lists@[id][j]] == id by {
            if id == id2 && j > 0 {
                assert(s1.lists@[id][j] == s0.lists@[id][j - 1]);
            }
            if !(id == id2 && j == 0) {
                assert(s0.place@[s1.lists@[id][j]] == id);
            }
        }
        assert forall|x: usize| #[trigger]
            s1.place@.contains_key(x) implies 0 <= s1.place@[x] < 2 * NUM_CLASSES
            && s1.lists@[s1.place@[x]].contains(x) by {
            if x == b {
                assert(s1.lists@[id2][0] == b);
            } else {
                let id = s0.place@[x];
                assert(s0.lists@[id].contains(x));
                let j = choose|j: int| 0 <= j < s0.lists@[id].len() && s0.lists@[id][j] == x;
                if id == id2 {
                    assert(s1.lists@[id][j + 1] == x);
                } else {
                    assert(s1.lists@[id][j] == x);
                }
            }
        }
        assert(s1.pages@.dom() =~= s1.place@.dom());
    }
}

impl<PAGEALLOC: MemAlloc> SlabAllocator<PAGEALLOC> {
    /// Pools with no page, over a page source for the region of `size` bytes
    /// from `addr`.
    pub fn new(addr: usize, size: usize) -> (r: Self)
        requires
            PAGEALLOC::accepts(addr, size),
        ensures
            r.inv(),
            r.slots() == Map::<usize, Set<int>>::empty(),
            r.source().blocks() == Map::<int, int>::empty(),
            r.source().heap_start() == addr,
            r.source().heap_end() == addr + size,
    {
        let r = Self {
            page_alloc: PAGEALLOC::new(addr, size),
            pages: HashMapWithView::new(),
            partial: [None; NUM_CLASSES],
            full: [None; NUM_CLASSES],
            lists: Ghost(Seq::new(2 * NUM_CLASSES as nat, |i: int| Seq::<usize>::empty())),
            place: Ghost(Map::empty()),
        };
        proof {
            reveal(list_ok);
            assert forall|id: int| 0 <= id < 2 * NUM_CLASSES implies list_ok(
                r.pages@,
                #[trigger] r.lists@[id],
                r.head(id),
            ) by {}
            assert(r.pages@.dom() =~= r.place@.dom());
            assert(r.slots() =~= Map::<usize, Set<int>>::empty());
        }
        r
    }

    /// Takes a slot of class `c`: from the first page of the class's partial
    /// list, or else from a fresh page of the page source.
    fn alloc_memory(&mut self, c: usize) -> (r: Option<usize>)
        requires
            old(self).inv(),
            c < NUM_CLASSES,
        ensures
            final(self).inv(),
            final(self).page_alloc.heap_start() == old(self).page_alloc.heap_start(),
            final(self).page_alloc.heap_end() == old(self).page_alloc.heap_end(),
            old(self).partial_head(c as int) is Some ==> r is Some,
            match r {
                Some(p) => exists|b: usize, s: int|
                    {
                        &&& p == user_ptr(b as int, c as int, s)
                        &&& final(self).classes() == old(self).classes().insert(b, c as int)
                        &&& match old(self).partial_head(c as int) {
                            Some(h) => {
                                &&& b == h
                                &&& old(self).slots().contains_key(b)
                                &&& 0 <= s < num_slots(c as int)
                                &&& !old(self).slots()[b].contains(s)
                                &&& forall|s2: int|
                                    0 <= s2 < s ==> #[trigger] old(self).slots()[b].contains(s2)
                                &&& final(self).slots() == old(self).slots().insert(
                                    b,
                                    old(self).slots()[b].insert(s),
                                )
                                &&& final(self).page_alloc == old(self).page_alloc
                                &&& final(self).pool_lists() == lists_after_take(
                                    old(self).pool_lists(),
                                    b,
                                    c as int,
                                    final(self).slots()[b].len() as int,
                                )
                            },
                            None => {
                                &&& s == 0
                                &&& !old(self).page_alloc.blocks().contains_key(b as int)
                                &&& final(self).page_alloc.blocks() == old(
                                    self,
                                ).page_alloc.blocks().insert(
                                    b as int,
                                    final(self).page_alloc.blocks()[b as int],
                                )
                                &&& final(self).slots() == old(self).slots().insert(b, set![0int])
                                &&& b == old(self).page_alloc.pick(SIZE_64K)
                                &&& final(self).pool_lists() == lists_after_fresh(
                                    old(self).pool_lists(),
                                    b,
                                    c as int,
                                )
                            },
                        }
                    },
                None => {
                    &&& old(self).partial_head(c as int) is None
                    &&& !old(self).page_alloc.can_allocate(SIZE_64K)
                    &&& final(self).pool_lists() == old(self).pool_lists()
                    &&& final(self).slots() == old(self).slots()
                    &&& final(self).classes() == old(self).classes()
                    &&& final(self).page_alloc.blocks() == old(self).page_alloc.blocks()
                },
            },
    {
        let ghost s0 = *self;
        let ghost ci = c as int;
        proof {
            lemma_class_table(ci);
            self.page_alloc.lemma_blocks();
            assert(list_ok(s0.pages@, s0.lists@[ci], s0.head(ci)));
            lemma_list_empty_head(s0.pages@, s0.lists@[ci], s0.head(ci));
        }
        match self.partial[c] {
            Some(b) => {
                proof {
                    lemma_list_at(s0.pages@, s0.lists@[ci], s0.head(ci), 0);
                    assert(s0.place@[b] == ci);
                    assert(ci % (NUM_CLASSES as int) == ci);
                    assert(s0.page_alloc.blocks().contains_key(b as int));
                }
                let mut rec = *self.pages.get(&b).unwrap();
                let ret = rec.take_slot(c, b);
                let ghost sl = choose|sl: int|
                    {
                        &&& 0 <= sl < num_slots(ci)
                        &&& !s0.pages@[b].live(ci).contains(sl)
                        &&& forall|s2: int|
                            0 <= s2 < sl ==> #[trigger] s0.pages@[b].live(ci).contains(s2)
                        &&& rec.live(ci) == s0.pages@[b].live(ci).insert(sl)
                        &&& ret == user_ptr(b as int, ci, sl)
                    };
                self.pages.insert(b, rec);
                let ghost s1 = *self;
                proof {
                    assert forall|id: int| 0 <= id < 2 * NUM_CLASSES implies list_ok(
                        s1.pages@,
                        #[trigger] s1.lists@[id],
                        s1.head(id),
                    ) by {
                        let t = s0.lists@[id];
                        assert(list_ok(s0.pages@, t, s0.head(id)));
                        assert forall|i: int| 0 <= i < t.len() implies same_links(
                            s0.pages@,
                            s1.pages@,
                            #[trigger] t[i],
                        ) by {
                            lemma_list_at(s0.pages@, t, s0.head(id), i);
                        }
                        lemma_list_frame(s0.pages@, s1.pages@, t, s0.head(id));
                    }
                    assert(s1.pages@.dom() =~= s0.pages@.dom());
                    s1.lemma_placed_disjoint();
                    s0.pages@[b].lemma_live_finite(ci);
                    vstd::set::axiom_set_insert_len(s0.pages@[b].live(ci), sl);
                }
                proof {
                    rec.lemma_full_count(ci);
                }
                let ghost s_ins = *self;
                if rec.is_full(c) {
                    self.unlink(c, b);
                    self.push_front(c + NUM_CLASSES, b);
                    proof {
                        self.place@ = s0.place@.insert(b, ci + NUM_CLASSES);
                        let l = s0.lists@[ci];
                        assert(l.index_of(b) == 0) by {
                            assert(l.contains(b));
                            let k = l.index_of(b);
                            assert(l[k] == b && l[0] == b);
                        }
                        assert(self.lists@ == s0.lists@.update(ci, l.remove(0)).update(
                            ci + NUM_CLASSES,
                            seq![b].add(s0.lists@[ci + NUM_CLASSES]),
                        ));
                        Self::lemma_moved(&s0, self, b, ci, ci + NUM_CLASSES, 0);
                    }
                }
                proof {
                    assert forall|x: usize| #[trigger] self.place@.contains_key(x) implies {
                        let id = self.place@[x];
                        let cx = id % (NUM_CLASSES as int);
                        &&& self.pages@[x].ok(cx)
                        &&& self.pages@[x].full(cx) == (id >= NUM_CLASSES)
                        &&& self.pages@[x].count() > 0
                        &&& self.page_alloc.blocks().contains_key(x as int)
                    } by {
                        SlabPage::lemma_same_but_links(self.pages@[x], s1.pages@[x], self.place@[x] % (NUM_CLASSES as int));
                        if x == b {
                            assert((ci + NUM_CLASSES) % (NUM_CLASSES as int) == ci);
                        }
                    }
                    assert(self.slots() =~= s0.slots().insert(b, s0.slots()[b].insert(sl))) by {
                        assert forall|x: usize| #[trigger] self.place@.contains_key(x) implies self.pages@[x].live(self.class_of(x))
                            == s1.pages@[x].live(self.class_of(x)) by {
                            SlabPage::lemma_same_but_links(self.pages@[x], s1.pages@[x], self.class_of(x));
                        }
                        assert((ci + NUM_CLASSES) % (NUM_CLASSES as int) == ci);
                    }
                    assert(self.classes() =~= s0.classes().insert(b, ci)) by {
                        assert((ci + NUM_CLASSES) % (NUM_CLASSES as int) == ci);
                    }
                }
                proof {
                    assert(self.slots()[b] == rec.live(ci));
                    if !rec.full(ci) {
                        assert(self.lists@ == s0.lists@);
                    }
                    assert(self.pool_lists() == lists_after_take(s0.pool_lists(), b, ci, self.slots()[b].len() as int));
                }
                Some(ret)
            },
            None => {
                match self.page_alloc.allocate(SIZE_64K) {
                    Some(addr) => {
                        proof {
                            self.page_alloc.lemma_blocks();
                            assert(!s0.place@.contains_key(addr));
                            assert forall|j: int| 0 <= j < 2 * NUM_CLASSES implies !#[trigger] self.lists@[j].contains(addr) by {
                                if self.lists@[j].contains(addr) {
                                    let k = choose|k: int| 0 <= k < self.lists@[j].len() && self.lists@[j][k] == addr;
                                    assert(s0.place@.contains_key(self.lists@[j][k]));
                                }
                            }
                        }
                        let mut rec = SlabPage::init(c);
                        let ret = rec.take_slot(c, addr);
                        proof {
                            vstd::set::axiom_set_insert_len(Set::<int>::empty(), 0);
                            assert forall|sl: int| 0 <= sl < 0 implies #[trigger] Set::<int>::empty().contains(sl) by {}
                            assert(rec.live(ci) =~= set![0int]) by {
                                let sl = choose|sl: int|
                                    {
                                        &&& 0 <= sl < num_slots(ci)
                                        &&& !Set::<int>::empty().contains(sl)
                                        &&& forall|s2: int|
                                            0 <= s2 < sl ==> #[trigger] Set::<int>::empty().contains(s2)
                                        &&& rec.live(ci) == Set::<int>::empty().insert(sl)
                                        &&& ret == user_ptr(addr as int, ci, sl)
                                    };
                                if sl > 0 {
                                    assert(Set::<int>::empty().contains(0));
                                }
                            }
                        }
                        self.pages.insert(addr, rec);
                        let ghost s1 = *self;
                        proof {
                            assert forall|id: int| 0 <= id < 2 * NUM_CLASSES implies list_ok(
                                s1.pages@,
                                #[trigger] s1.lists@[id],
                                s1.head(id),
                            ) by {
                                let t = s0.lists@[id];
                                assert(list_ok(s0.pages@, t, s0.head(id)));
                                assert forall|i: int| 0 <= i < t.len() implies same_links(
                                    s0.pages@,
                                    s1.pages@,
                                    #[trigger] t[i],
                                ) by {
                                    lemma_list_at(s0.pages@, t, s0.head(id), i);
                                    assert(s0.lists@[id].contains(t[i]));
                                }
                                lemma_list_frame(s0.pages@, s1.pages@, t, s0.head(id));
                            }
                            s0.lemma_placed_disjoint();
                            assert(s1.disjoint_lists());
                        }
                        proof {
                            rec.lemma_full_count(ci);
                            lemma_class_table(ci);
                        }
                        let id = if rec.is_full(c) {
                            c + NUM_CLASSES
                        } else {
                            c
                        };
                        self.push_front(id, addr);
                        proof {
                            self.place@ = s0.place@.insert(addr, id as int);
                            assert(self.pages@.dom() == s0.pages@.dom().insert(addr));
                            Self::lemma_added(&s0, self, addr, id as int);
                            assert forall|x: usize| #[trigger] self.place@.contains_key(x) implies {
                                let idx = self.place@[x];
                                let cx = idx % (NUM_CLASSES as int);
                                &&& self.pages@[x].ok(cx)
                                &&& self.pages@[x].full(cx) == (idx >= NUM_CLASSES)
                                &&& self.pages@[x].count() > 0
                                &&& self.page_alloc.blocks().contains_key(x as int)
                            } by {
                                SlabPage::lemma_same_but_links(self.pages@[x], s1.pages@[x], self.place@[x] % (NUM_CLASSES as int));
                                if x == addr {
                                    assert((ci + NUM_CLASSES) % (NUM_CLASSES as int) == ci);
                                }
                            }
                            assert(self.slots() =~= s0.slots().insert(addr, set![0int])) by {
                                assert forall|x: usize| #[trigger] self.place@.contains_key(x) implies self.pages@[x].live(self.class_of(x))
                                    == s1.pages@[x].live(self.class_of(x)) by {
                                    SlabPage::lemma_same_but_links(self.pages@[x], s1.pages@[x], self.class_of(x));
                                }
                                assert((ci + NUM_CLASSES) % (NUM_CLASSES as int) == ci);
                            }
                            assert(self.classes() =~= s0.classes().insert(addr, ci)) by {
                                assert((ci + NUM_CLASSES) % (NUM_CLASSES as int) == ci);
                            }
                        }
                        proof {
                            assert(self.pool_lists() == lists_after_fresh(s0.pool_lists(), addr, ci));
                        }
                        Some(ret)
                    },
                    None => {
                        proof {
                            assert(self.slots() =~= s0.slots());
                            assert(self.classes() =~= s0.classes());
                        }
                        None
                    },
                }
            },
        }
    }
}

impl<PAGEALLOC: MemAlloc> SlabAllocator<PAGEALLOC> {
    /// After the records change at most in links, or page `b` leaves the
    /// records while listed nowhere, the lists stay well linked.
    proof fn lemma_relinked(s0: &Self, s1: &Self)
        requires
            s0.links_ok(),
            s1.lists == s0.lists,
            s1.partial == s0.partial,
            s1.full == s0.full,
            forall|id: int, k: int|
                0 <= id < 2 * NUM_CLASSES && 0 <= k < s0.lists@[id].len() ==> same_links(
                    s0.pages@,
                    s1.pages@,
                    #[trigger] s0.lists@[id][k],
                ),
        ensures
            s1.links_ok(),
    {
        assert forall|id: int| 0 <= id < 2 * NUM_CLASSES implies list_ok(
            s1.pages@,
            #[trigger] s1.lists@[id],
            s1.head(id),
        ) by {
            let t = s0.lists@[id];
            assert(list_ok(s0.pages@, t, s0.head(id)));
            assert forall|i: int| 0 <= i < t.len() implies same_links(
                s0.pages@,
                s1.pages@,
                #[trigger] t[i],
            ) by {
                assert(same_links(s0.pages@, s1.pages@, s0.lists@[id][i]));
            }
            lemma_list_frame(s0.pages@, s1.pages@, t, s0.head(id));
        }
    }

    /// After page `b`, listed nowhere, leaves the records, the lists stay
    /// well linked.
    proof fn lemma_removed_links(s0: &Self, s1: &Self, b: usize)
        requires
            s0.links_ok(),
            forall|j: int| 0 <= j < 2 * NUM_CLASSES ==> !#[trigger] s0.lists@[j].contains(b),
            s1.lists == s0.lists,
            s1.partial == s0.partial,
            s1.full == s0.full,
            s1.pages@ == s0.pages@.remove(b),
        ensures
            s1.links_ok(),
    {
        assert forall|id: int, k: int|
            0 <= id < 2 * NUM_CLASSES && 0 <= k < s0.lists@[id].len() implies same_links(
            s0.pages@,
            s1.pages@,
            #[trigger] s0.lists@[id][k],
        ) by {
            assert(list_ok(s0.pages@, s0.lists@[id], s0.head(id)));
            lemma_list_at(s0.pages@, s0.lists@[id], s0.head(id), k);
            assert(s0.lists@[id].contains(s0.lists@[id][k]));
        }
        Self::lemma_relinked(s0, s1);
    }

    /// Frees the slot of `ptr` in page `addr_slab` of class `c`; returns the
    /// page when it became empty and went back to the page source.
    fn dealloc_memory(&mut self, ptr: usize, addr_slab: usize, c: usize) -> (r: Option<usize>)
        requires
            old(self).inv(),
            c < NUM_CLASSES,
            old(self).slots().contains_key(addr_slab),
            old(self).classes()[addr_slab] == c,
            exists|s: int|
                old(self).slots()[addr_slab].contains(s) && ptr == user_ptr(
                    addr_slab as int,
                    c as int,
                    s,
                ),
        ensures
            final(self).inv(),
            final(self).source().heap_start() == old(self).source().heap_start(),
            final(self).source().heap_end() == old(self).source().heap_end(),
            forall|s: int|
                old(self).slots()[addr_slab].contains(s) && ptr == user_ptr(
                    addr_slab as int,
                    c as int,
                    s,
                ) ==> final(self).pool_lists() == lists_after_free(
                    old(self).pool_lists(),
                    addr_slab,
                    c as int,
                    old(self).slots()[addr_slab].len() as int,
                ) && if old(self).slots()[addr_slab].len() == 1 {
                    &&& r == Some(addr_slab)
                    &&& final(self).slots() == old(self).slots().remove(addr_slab)
                    &&& final(self).classes() == old(self).classes().remove(addr_slab)
                    &&& final(self).source().blocks() == old(self).source().blocks().remove(
                        addr_slab as int,
                    )
                } else {
                    &&& r is None
                    &&& final(self).slots() == old(self).slots().insert(
                        addr_slab,
                        old(self).slots()[addr_slab].remove(s),
                    )
                    &&& final(self).classes() == old(self).classes()
                    &&& final(self).source() == old(self).source()
                },
    {
        let ghost s0 = *self;
        let ghost ci = c as int;
        let ghost b = addr_slab;
        let ghost id0 = s0.place@[b];
        let ghost sl = choose|s: int| s0.slots()[b].contains(s) && ptr == user_ptr(b as int, ci, s);
        proof {
            lemma_class_table(ci);
            assert(id0 % (NUM_CLASSES as int) == ci);
            assert(id0 == ci || id0 == ci + NUM_CLASSES);
            s0.pages@[b].lemma_live_finite(ci);
            assert(s0.lists@[id0].contains(b));
        }
        let mut rec = *self.pages.get(&addr_slab).unwrap();
        let is_full = rec.is_full(c);
        rec.release_slot(c, addr_slab, ptr);
        self.pages.insert(addr_slab, rec);
        let ghost s1 = *self;
        proof {
            assert forall|id: int, k: int|
                0 <= id < 2 * NUM_CLASSES && 0 <= k < s0.lists@[id].len() implies same_links(
                s0.pages@,
                s1.pages@,
                #[trigger] s0.lists@[id][k],
            ) by {
                assert(list_ok(s0.pages@, s0.lists@[id], s0.head(id)));
                lemma_list_at(s0.pages@, s0.lists@[id], s0.head(id), k);
            }
            Self::lemma_relinked(&s0, &s1);
            assert(s1.pages@.dom() =~= s0.pages@.dom());
            s1.lemma_placed_disjoint();
            vstd::set::axiom_set_remove_len(s0.pages@[b].live(ci), sl);
            assert(rec.live(ci) == s0.pages@[b].live(ci).remove(sl));
        }
        proof {
            s0.pages@[b].lemma_full_count(ci);
            assert(rec.count() == 0 <==> s0.pages@[b].live(ci).len() == 1);
        }
        let ret = if is_full {
            self.unlink(c + NUM_CLASSES, addr_slab);
            if rec.is_empty() {
                let ghost su = *self;
                self.pages.remove(&addr_slab);
                proof {
                    Self::lemma_removed_links(&su, self, b);
                }
                self.page_alloc.free(addr_slab);
                proof {
                    self.place@ = s1.place@.remove(b);
                    let k = s1.lists@[id0].index_of(b);
                    Self::lemma_dropped(&s1, self, b, id0, k);
                }
                Some(addr_slab)  // Should unmap this page.
            } else {
                self.push_front(c, addr_slab);
                proof {
                    self.place@ = s1.place@.insert(b, ci);
                    let k = s1.lists@[id0].index_of(b);
                    Self::lemma_moved(&s1, self, b, id0, ci, k);
                }
                None
            }
        } else if rec.is_empty() {
            self.unlink(c, addr_slab);
            let ghost su = *self;
            self.pages.remove(&addr_slab);
            proof {
                Self::lemma_removed_links(&su, self, b);
            }
            self.page_alloc.free(addr_slab);
            proof {
                self.place@ = s1.place@.remove(b);
                let k = s1.lists@[id0].index_of(b);
                Self::lemma_dropped(&s1, self, b, id0, k);
            }
            Some(addr_slab)  // Should unmap this page.
        } else {
            None
        };
        proof {
            assert forall|x: usize| #[trigger] self.place@.contains_key(x) implies {
                let id = self.place@[x];
                let cx = id % (NUM_CLASSES as int);
                &&& self.pages@[x].ok(cx)
                &&& self.pages@[x].full(cx) == (id >= NUM_CLASSES)
                &&& self.pages@[x].count() > 0
                &&& self.page_alloc.blocks().contains_key(x as int)
            } by {
                SlabPage::lemma_same_but_links(
                    self.pages@[x],
                    s1.pages@[x],
                    self.place@[x] % (NUM_CLASSES as int),
                );
                assert(s1.place@.contains_key(x));
                if x == b {
                    assert(ci % (NUM_CLASSES as int) == ci);
                }
            }
            if ret is Some {
                assert(self.slots() =~= s0.slots().remove(b)) by {
                    assert forall|x: usize| #[trigger] self.place@.contains_key(x) implies self.pages@[x].live(
                        self.class_of(x),
                    ) == s1.pages@[x].live(self.class_of(x)) by {
                        SlabPage::lemma_same_but_links(self.pages@[x], s1.pages@[x], self.class_of(x));
                    }
                }
                assert(self.classes() =~= s0.classes().remove(b));
            } else {
                assert(self.slots() =~= s0.slots().insert(b, s0.slots()[b].remove(sl))) by {
                    assert forall|x: usize| #[trigger] self.place@.contains_key(x) implies self.pages@[x].live(
                        self.class_of(x),
                    ) == s1.pages@[x].live(self.class_of(x)) by {
                        SlabPage::lemma_same_but_links(self.pages@[x], s1.pages@[x], self.class_of(x));
                    }
                    assert(self.class_of(b) == ci);
                }
                assert(self.classes() =~= s0.classes()) by {
                    assert(self.class_of(b) == ci);
                }
            }
            assert forall|s2: int|
                s0.slots()[b].contains(s2) && ptr == user_ptr(b as int, ci, s2) implies s2 == sl by {
                let z = slot_size(ci);
                assert(s2 * z == sl * z);
                lemma_mul_is_commutative(s2, z);
                lemma_mul_is_commutative(sl, z);
                lemma_mul_equality_converse(z, s2, sl);
            }
        }
        ret
    }
}

/// A nonzero word with `k` leading zeros lies in `[2^(63 - k), 2^(64 - k))`.
proof fn lemma_lz_bounds(x: u64)
    requires
        x != 0,
    ensures
        0 <= u64_leading_zeros(x) < 64,
        pow2((63 - u64_leading_zeros(x)) as nat) <= x,
        u64_leading_zeros(x) > 0 ==> x < pow2((64 - u64_leading_zeros(x)) as nat),
{
    axiom_u64_leading_zeros(x);
    let k = u64_leading_zeros(x);
    let s = (63 - k) as u64;
    assert((x >> s) & 1u64 != 0u64 ==> x >> s >= 1) by (bit_vector);
    vstd::bits::lemma_u64_shr_is_div(x, s);
    vstd::arithmetic::power2::lemma_pow2_pos(s as nat);
    lemma_div_is_ordered_by_denominator(x as int, 1, pow2(s as nat) as int);
    if x < pow2(s as nat) {
        lemma_basic_div(x as int, pow2(s as nat) as int);
    }
    if k > 0 {
        let t = (64 - k) as u64;
        vstd::bits::lemma_u64_shr_is_div(x, t);
        vstd::arithmetic::power2::lemma_pow2_pos(t as nat);
        if x >= pow2(t as nat) {
            lemma_div_is_ordered(pow2(t as nat) as int, x as int, pow2(t as nat) as int);
            lemma_div_by_self(pow2(t as nat) as int);
        }
    }
}

/// The class of a request of `size` bytes: by the leading zeros of
/// `size + 7` for the classes up to 1024, by range tests beyond.
fn class_index(size: usize) -> (r: usize)
    requires
        size <= MAX_SLAB_SIZE,
    ensures
        r == class_for(size as int),
{
    let n = (size as u64 + 8 - 1).leading_zeros();
    proof {
        let x = (size + 7) as u64;
        lemma_lz_bounds(x);
        lemma2_to64();
        let k = u64_leading_zeros(x);
        if k <= 53 && 63 - k > 10 {
            vstd::arithmetic::power2::lemma_pow2_strictly_increases(10, (63 - k) as nat);
        }
    }
    if n == 61 || n == 60 {
        0
    } else if n == 59 {
        1
    } else if n == 58 {
        2
    } else if n == 57 {
        3
    } else if n == 56 {
        4
    } else if n == 55 {
        5
    } else if n == 54 {
        6
    } else if size <= 2040 - 16 {
        7
    } else if size <= 4088 - 16 {
        8
    } else if size <= 8184 - 16 {
        9
    } else if size <= 16376 - 16 {
        10
    } else if size <= 32752 - 16 {
        11
    } else {
        12
    }
}

/// The class whose nominal slot size is `size`, if any.
fn size_class(size: u32) -> (r: Option<usize>)
    ensures
        match r {
            Some(c) => c < NUM_CLASSES && slot_size(c as int) == size,
            None => forall|c: int| 0 <= c < NUM_CLASSES ==> slot_size(c) != size,
        },
{
    match size {
        16 => Some(0),
        32 => Some(1),
        64 => Some(2),
        128 => Some(3),
        256 => Some(4),
        512 => Some(5),
        1024 => Some(6),
        2040 => Some(7),
        4088 => Some(8),
        8184 => Some(9),
        16376 => Some(10),
        32752 => Some(11),
        65512 => Some(12),
        _ => None,
    }
}

/// The page that holds the slot of `ptr`.
pub open spec fn page_of(ptr: int) -> int {
    (ptr - 8) - (ptr - 8) % 65536
}

/// The slot of `ptr` in page `b` of class `c`.
pub open spec fn slot_of(b: int, c: int, ptr: int) -> int {
    (ptr - header(c) - b) / slot_size(c)
}

impl<PAGEALLOC: MemAlloc> SlabAllocator<PAGEALLOC> {
    /// Whether `ptr` was handed out by the pools and not freed since.
    pub open spec fn holds(&self, ptr: int) -> bool {
        let b = page_of(ptr);
        &&& 0 <= b <= usize::MAX
        &&& self.slots().contains_key(b as usize)
        &&& self.slots()[b as usize].contains(slot_of(b, self.classes()[b as usize], ptr))
        &&& ptr == user_ptr(b, self.classes()[b as usize], slot_of(b, self.classes()[b as usize], ptr))
    }

    /// Hands out a block of the page source for a request too large for the
    /// pools.
    pub fn alloc_pages(&mut self, size: usize) -> (r: Option<usize>)
        requires
            old(self).inv(),
        ensures
            final(self).inv(),
            final(self).slots() == old(self).slots(),
            final(self).classes() == old(self).classes(),
            final(self).source().heap_start() == old(self).source().heap_start(),
            final(self).source().heap_end() == old(self).source().heap_end(),
            final(self).pool_lists() == old(self).pool_lists(),
            r is Some <==> old(self).source().can_allocate(size),
            r matches Some(a) ==> a == old(self).source().pick(size),
            match r {
                Some(a) => {
                    &&& !old(self).source().blocks().contains_key(a as int)
                    &&& final(self).source().blocks() == old(self).source().blocks().insert(
                        a as int,
                        final(self).source().blocks()[a as int],
                    )
                    &&& final(self).source().blocks()[a as int] >= size
                },
                None => final(self).source().blocks() == old(self).source().blocks(),
            },
    {
        let r = self.page_alloc.allocate(size);
        proof {
            assert(self.slots() =~= old(self).slots());
            assert(self.classes() =~= old(self).classes());
        }
        r
    }

    /// Takes back a block handed out by `alloc_pages` and returns its length;
    /// `None`, with nothing changed, when the page source refuses `addr` or
    /// the pools use the page at `addr`.
    pub fn free_pages(&mut self, addr: usize) -> (r: Option<usize>)
        requires
            old(self).inv(),
        ensures
            final(self).inv(),
            final(self).slots() == old(self).slots(),
            final(self).classes() == old(self).classes(),
            final(self).source().heap_start() == old(self).source().heap_start(),
            final(self).source().heap_end() == old(self).source().heap_end(),
            final(self).pool_lists() == old(self).pool_lists(),
            r is Some <==> (old(self).source().blocks().contains_key(addr as int) && !old(
                self,
            ).slots().contains_key(addr)),
            r matches Some(n) ==> {
                &&& final(self).source().blocks() == old(self).source().blocks().remove(addr as int)
                &&& n >= 65536
                &&& addr + n <= final(self).source().heap_end()
                &&& old(self).source().blocks().contains_key(addr as int) ==> n == old(
                    self,
                ).source().blocks()[addr as int]
            },
            r is None ==> final(self).source().blocks() == old(self).source().blocks(),
    {
        if self.pages.contains_key(&addr) {
            return None;
        }
        let r = self.page_alloc.free(addr);
        proof {
            assert(self.slots() =~= old(self).slots());
            assert(self.classes() =~= old(self).classes());
        }
        r
    }

    /// The page source of sound pools is sound.
    pub proof fn lemma_source(&self)
        requires
            self.inv(),
        ensures
            self.source().wf(),
            self.source().heap_end() <= usize::MAX,
    {
        self.page_alloc.lemma_blocks();
    }

    /// An object lies in its page, which lies in the heap.
    pub proof fn lemma_object_in_page(&self, b: usize, s: int)
        requires
            self.inv(),
            self.slots().contains_key(b),
            self.slots()[b].contains(s),
        ensures
            0 <= self.classes()[b] < NUM_CLASSES,
            self.source().heap_start() <= b,
            b < user_ptr(b as int, self.classes()[b], s),
            user_ptr(b as int, self.classes()[b], s) + user_size(self.classes()[b]) <= b + 65536,
            b + 65536 <= self.source().heap_end(),
            self.source().heap_end() <= usize::MAX,
            self.source().blocks().contains_key(b as int),
            b % 65536 == 0,
            user_ptr(b as int, self.classes()[b], s) % 8 == 0,
    {
        let c = self.classes()[b];
        self.page_alloc.lemma_blocks();
        assert(self.place@.contains_key(b));
        assert(self.pages@[b].ok(c));
        lemma_class_table(c);
        assert(s * slot_size(c) + slot_size(c) <= buf_size(c)) by (nonlinear_arith)
            requires
                0 <= s < num_slots(c),
                num_slots(c) * slot_size(c) <= buf_size(c),
                slot_size(c) >= 0,
        ;
        assert(s * slot_size(c) >= 0) by (nonlinear_arith)
            requires s >= 0, slot_size(c) >= 0;
        let k = slot_size(c) / 8;
        assert(slot_size(c) == 8 * k);
        let q = b as int / 65536;
        assert(b == 65536 * q);
        assert((b + s * slot_size(c) + header(c)) % 8 == 0) by (nonlinear_arith)
            requires
                b == 65536 * q,
                slot_size(c) == 8 * k,
                header(c) == 8 || header(c) == 16,
        {
            assert(b + s * slot_size(c) + header(c) == 8 * (8192 * q + s * k + header(c) / 8));
        }
    }

    /// Whether `ptr` was handed out by the pools and not freed since.
    pub fn holds_object(&self, ptr: usize) -> (r: bool)
        requires
            self.inv(),
        ensures
            r == self.holds(ptr as int),
    {
        if ptr < 8 {
            return false;
        }
        let addr = ptr - 8;
        let addr_slab = addr & MASK;
        proof {
            assert((addr & !0xFFFFusize) == addr - addr % 65536) by (bit_vector);
            assert(MASK == !0xFFFFusize);
            assert(addr_slab == page_of(ptr as int));
        }
        match self.pages.get(&addr_slab) {
            None => false,
            Some(rec) => {
                let ghost b = addr_slab;
                let ghost ci = self.classes()[b];
                proof {
                    assert(self.place@.contains_key(b));
                    assert(self.pages@[b].ok(ci));
                    lemma_class_table(ci);
                }
                match size_class(rec.size) {
                    None => false,
                    Some(c) => {
                        assert(c == ci);
                        let hdr: usize = if 7 <= c && c < 12 {
                            16
                        } else {
                            8
                        };
                        if ptr - addr_slab < hdr {
                            proof {
                                let x: int = ptr - hdr - addr_slab;
                                let z = slot_size(ci);
                                lemma_fundamental_div_mod(x, z);
                                assert(x / z < 0) by (nonlinear_arith)
                                    requires x < 0, z > 0, x == z * (x / z) + x % z, 0 <= x % z < z;
                            }
                            return false;
                        }
                        let off = ptr - hdr - addr_slab;
                        let size = rec.size as usize;
                        let sl = off / size;
                        proof {
                            lemma_fundamental_div_mod(off as int, size as int);
                            lemma_mod_pos_bound(off as int, size as int);
                            assert(sl * size <= off) by (nonlinear_arith)
                                requires sl == off / size, size > 0, off >= 0, off == size * (off / size) + off % size, off % size >= 0;
                        }
                        if sl * size != off || sl >= class_slots(c) {
                            proof {
                                assert(slot_of(b as int, ci, ptr as int) == sl);
                                if sl * size != off {
                                    assert(ptr != user_ptr(b as int, ci, sl as int));
                                }
                            }
                            return false;
                        }
                        proof {
                            assert(slot_of(b as int, ci, ptr as int) == sl);
                            assert(ptr == user_ptr(b as int, ci, sl as int));
                        }
                        rec.is_taken(c, sl)
                    },
                }
            },
        }
    }

    /// What `slab_alloc(size)` does, from `s0` to `s1`, returning `r`.
    pub open spec fn alloc_post(s0: Self, s1: Self, size: usize, r: Option<usize>) -> bool {
        let c = class_for(size as int);
        &&& c == NUM_CLASSES ==> r is None && s1 == s0
        &&& c < NUM_CLASSES && s0.partial_head(c) is Some ==> r is Some
        &&& match r {
            Some(p) => exists|b: usize, s: int|
                {
                    &&& p == user_ptr(b as int, c, s)
                    &&& s1.classes() == s0.classes().insert(b, c)
                    &&& match s0.partial_head(c) {
                        Some(h) => {
                            &&& b == h
                            &&& s0.slots().contains_key(b)
                            &&& 0 <= s < num_slots(c)
                            &&& !s0.slots()[b].contains(s)
                            &&& forall|s2: int|
                                0 <= s2 < s ==> #[trigger] s0.slots()[b].contains(s2)
                            &&& s1.slots() == s0.slots().insert(
                                b,
                                s0.slots()[b].insert(s),
                            )
                            &&& s1.source() == s0.source()
                            &&& s1.pool_lists() == lists_after_take(
                                s0.pool_lists(),
                                b,
                                c,
                                s1.slots()[b].len() as int,
                            )
                        },
                        None => {
                            &&& s == 0
                            &&& !s0.source().blocks().contains_key(b as int)
                            &&& s1.source().blocks() == s0.source().blocks().insert(
                                b as int,
                                s1.source().blocks()[b as int],
                            )
                            &&& s1.slots() == s0.slots().insert(b, set![0int])
                            &&& b == s0.source().pick(SIZE_64K)
                            &&& s1.pool_lists() == lists_after_fresh(s0.pool_lists(), b, c)
                        },
                    }
                },
            None => {
                &&& c == NUM_CLASSES || (s0.partial_head(c) is None && !s0.source().can_allocate(
                    SIZE_64K,
                ))
                &&& s1.pool_lists() == s0.pool_lists()
                &&& s1.slots() == s0.slots()
                &&& s1.classes() == s0.classes()
                &&& s1.source().blocks() == s0.source().blocks()
            },
        }
    }

    /// Allocates an object of `size` bytes from the class `class_for(size)`:
    /// the free slot of lowest index in the first page of the class's list of
    /// pages with a free slot, or slot 0 of a fresh page of the page source.
    pub fn slab_alloc(&mut self, size: usize) -> (r: Option<usize>)
        requires
            old(self).inv(),
        ensures
            final(self).inv(),
            final(self).source().heap_start() == old(self).source().heap_start(),
            final(self).source().heap_end() == old(self).source().heap_end(),
            Self::alloc_post(*old(self), *final(self), size, r),
    {
        if size > MAX_SLAB_SIZE {
            return None;
        }
        let c = class_index(size);
        let ghost s0 = *self;
        let r = self.alloc_memory(c);
        proof {
            let ci = c as int;
            if r is None {
                assert(s0.partial_head(ci) is None && !s0.source().can_allocate(SIZE_64K));
                assert(self.pool_lists() == s0.pool_lists());
            } else {
                assert(r is Some);
            }
        }
        r
    }

    /// What `slab_dealloc(ptr)` does, from `s0` to `s1`, returning `r`.
    pub open spec fn dealloc_post(s0: Self, s1: Self, ptr: usize, r: Option<usize>) -> bool {
        let b = page_of(ptr as int) as usize;
        let s = slot_of(b as int, s0.classes()[b], ptr as int);
        &&& s1.pool_lists() == lists_after_free(s0.pool_lists(), b, s0.classes()[b], s0.slots()[b].len() as int)
        &&& if s0.slots()[b].len() == 1 {
            &&& r == Some(b)
            &&& s1.slots() == s0.slots().remove(b)
            &&& s1.classes() == s0.classes().remove(b)
            &&& s1.source().blocks() == s0.source().blocks().remove(b as int)
        } else {
            &&& r is None
            &&& s1.slots() == s0.slots().insert(b, s0.slots()[b].remove(s))
            &&& s1.classes() == s0.classes()
            &&& s1.source() == s0.source()
        }
    }

    /// Frees the object at `ptr`; returns the base of its page when the page
    /// became empty and went back to the page source, to be unmapped.
    pub fn slab_dealloc(&mut self, ptr: usize) -> (r: Option<usize>)
        requires
            old(self).inv(),
            old(self).holds(ptr as int),
        ensures
            final(self).inv(),
            final(self).source().heap_start() == old(self).source().heap_start(),
            final(self).source().heap_end() == old(self).source().heap_end(),
            Self::dealloc_post(*old(self), *final(self), ptr, r),
    {
        let ghost b = page_of(ptr as int) as usize;
        let ghost ci = self.classes()[b];
        let ghost sl = slot_of(b as int, ci, ptr as int);
        proof {
            self.page_alloc.lemma_blocks();
            assert(self.place@.contains_key(b));
            assert(self.page_alloc.blocks().contains_key(b as int));
            lemma_class_table(ci);
            assert(sl * slot_size(ci) + slot_size(ci) <= buf_size(ci)) by (nonlinear_arith)
                requires
                    0 <= sl < num_slots(ci),
                    num_slots(ci) * slot_size(ci) <= buf_size(ci),
                    slot_size(ci) >= 0,
            ;
            assert(sl * slot_size(ci) >= 0) by (nonlinear_arith)
                requires sl >= 0, slot_size(ci) >= 0;
        }
        let addr = ptr - 8;
        let addr_slab = addr & MASK;
        proof {
            let bu = b;
            assert(bu % 65536 == 0);
            assert(bu <= addr && addr - bu < 65536);
            assert((bu & 0xFFFFusize) == bu % 65536) by (bit_vector);
            assert(((addr & !0xFFFFusize) == bu)) by (bit_vector)
                requires bu & 0xFFFFusize == 0usize, bu <= addr, addr - bu < 65536usize;
            assert(MASK == !0xFFFFusize);
            assert(addr_slab == b);
        }
        let rec = self.pages.get(&addr_slab).unwrap();
        let size = rec.size;
        match size_class(size) {
            Some(c) => {
                proof {
                    assert(self.pages@[b].ok(ci));
                    assert(c == ci);
                }
                self.dealloc_memory(ptr, addr_slab, c)
            },
            None => {
                proof {
                    assert(self.pages@[b].ok(ci));
                }
                None
            },
        }
    }
}

impl<PAGEALLOC: MemAlloc> SlabAllocator<PAGEALLOC> {
    /// Once every object is freed, the pools hold no page and every list is
    /// empty, as `new` left them.
    pub proof fn lemma_all_free(&self)
        requires
            self.inv(),
            self.slots() == Map::<usize, Set<int>>::empty(),
        ensures
            forall|c: int| 0 <= c < NUM_CLASSES ==> #[trigger] self.partial_head(c) is None,
            forall|c: int| 0 <= c < NUM_CLASSES ==> #[trigger] self.full_head(c) is None,
            forall|b: usize| !#[trigger] self.classes().contains_key(b),
    {
        assert forall|id: int| 0 <= id < 2 * NUM_CLASSES implies #[trigger] self.head(id) is None by {
            assert(list_ok(self.pages@, self.lists@[id], self.head(id)));
            lemma_list_empty_head(self.pages@, self.lists@[id], self.head(id));
            if self.lists@[id].len() > 0 {
                let x = self.lists@[id][0];
                assert(self.place@.contains_key(x));
                assert(self.slots().contains_key(x));
            }
        }
        assert forall|c: int| 0 <= c < NUM_CLASSES implies #[trigger] self.full_head(c) is None by {
            assert(self.head(c + NUM_CLASSES) is None);
        }
        assert forall|c: int| 0 <= c < NUM_CLASSES implies #[trigger] self.partial_head(c) is None by {
            assert(self.head(c) is None);
        }
        assert forall|b: usize| !#[trigger] self.classes().contains_key(b) by {
            if self.classes().contains_key(b) {
                assert(self.slots().contains_key(b));
            }
        }
    }

    /// Two objects held by the pools share no byte.
    pub proof fn lemma_objects_disjoint(&self, b1: usize, s1: int, b2: usize, s2: int)
        requires
            self.inv(),
            self.slots().contains_key(b1),
            self.slots()[b1].contains(s1),
            self.slots().contains_key(b2),
            self.slots()[b2].contains(s2),
            b1 != b2 || s1 != s2,
        ensures
            crate::disjoint(
                user_ptr(b1 as int, self.classes()[b1], s1),
                user_size(self.classes()[b1]),
                user_ptr(b2 as int, self.classes()[b2], s2),
                user_size(self.classes()[b2]),
            ),
    {
        self.lemma_object_in_page(b1, s1);
        self.lemma_object_in_page(b2, s2);
        self.page_alloc.lemma_blocks();
        let c = self.classes()[b1];
        if b1 == b2 {
            let z = slot_size(c);
            if s1 < s2 {
                assert(s1 * z + z <= s2 * z) by (nonlinear_arith)
                    requires s1 < s2, z >= 0;
            } else {
                assert(s2 * z + z <= s1 * z) by (nonlinear_arith)
                    requires s2 < s1, z >= 0;
            }
        } else {
            assert(self.source().blocks().contains_key(b1 as int));
            assert(self.source().blocks().contains_key(b2 as int));
        }
    }

    /// An object held by the pools shares no byte with a block of the page
    /// source that the pools do not use as a page.
    pub proof fn lemma_object_apart(&self, b: usize, s: int, a: int)
        requires
            self.inv(),
            self.slots().contains_key(b),
            self.slots()[b].contains(s),
            self.source().blocks().contains_key(a),
            a != b,
        ensures
            crate::disjoint(
                user_ptr(b as int, self.classes()[b], s),
                user_size(self.classes()[b]),
                a,
                self.source().blocks()[a],
            ),
    {
        self.lemma_object_in_page(b, s);
        self.page_alloc.lemma_blocks();
        assert(self.source().blocks().contains_key(b as int));
    }
}

} // verus!
