//! Buddy page allocator over a complete binary tree whose nodes are tagged
//! with two bits each, 32 nodes to a 64-bit word.
//!
//! Node `(d, o)` (depth `d`, offset `o` in its row) has index `2^d - 1 + o`
//! and stands for the block of `heap_size / 2^d` bytes at
//! `start + (heap_size / 2^d) * o`.
use vstd::prelude::*;
use vstd::arithmetic::power2::*;
use vstd::arithmetic::div_mod::*;
use vstd::arithmetic::mul::*;
use crate::{MemAlloc, SIZE_64K, disjoint};

verus! {

pub const TAG_UNUSED: u64 = 0;
pub const TAG_INNER: u64 = 1;
pub const TAG_USED_LEAF: u64 = 2;

/// A buddy allocator of `2^DEPTH` pages of 64 KiB, whose tree tags fill
/// `NUM_NODES32` words.
pub struct BuddyAlloc<const DEPTH: usize, const NUM_NODES32: usize> {
    min_size: usize,
    start: usize,
    bitmap: [u64; NUM_NODES32],
}

pub const DEPTH_PAGE64K_MEM32M: usize = 9;
pub const DEPTH_PAGE64K_MEM64M: usize = 10;
pub const DEPTH_PAGE64K_MEM128M: usize = 11;
pub const DEPTH_PAGE64K_MEM256M: usize = 12;
pub const DEPTH_PAGE64K_MEM512M: usize = 13;
pub const DEPTH_PAGE64K_MEM1G: usize = 14;
pub const DEPTH_PAGE64K_MEM2G: usize = 15;
pub const DEPTH_PAGE64K_MEM4G: usize = 16;
pub const DEPTH_PAGE64K_MEM8G: usize = 17;
pub const DEPTH_PAGE64K_MEM16G: usize = 18;
pub const DEPTH_PAGE64K_MEM32G: usize = 19;
pub const DEPTH_PAGE64K_MEM64G: usize = 20;
pub const DEPTH_PAGE64K_MEM128G: usize = 21;
pub const DEPTH_PAGE64K_MEM256G: usize = 22;
pub const DEPTH_PAGE64K_MEM512G: usize = 23;
pub const DEPTH_PAGE64K_MEM1T: usize = 24;
pub const DEPTH_PAGE64K_MEM2T: usize = 25;
pub const DEPTH_PAGE64K_MEM4T: usize = 26;
pub const DEPTH_PAGE64K_MEM8T: usize = 27;

// A tree of depth h has 2^(h + 1) - 1 nodes; at two bits a node, a word holds
// 32 of them, so 2^(h - 4) words hold the tree.
pub const NODES_PAGE64K_MEM32M: usize = 32;
pub const NODES_PAGE64K_MEM64M: usize = 64;
pub const NODES_PAGE64K_MEM128M: usize = 128;
pub const NODES_PAGE64K_MEM256M: usize = 256;
pub const NODES_PAGE64K_MEM512M: usize = 512;
pub const NODES_PAGE64K_MEM1G: usize = 1024;
pub const NODES_PAGE64K_MEM2G: usize = 2048;
pub const NODES_PAGE64K_MEM4G: usize = 4096;
pub const NODES_PAGE64K_MEM8G: usize = 8192;
pub const NODES_PAGE64K_MEM16G: usize = 16384;
pub const NODES_PAGE64K_MEM32G: usize = 32768;
pub const NODES_PAGE64K_MEM64G: usize = 65536;
pub const NODES_PAGE64K_MEM128G: usize = 131072;
pub const NODES_PAGE64K_MEM256G: usize = 262144;
pub const NODES_PAGE64K_MEM512G: usize = 524288;
pub const NODES_PAGE64K_MEM1T: usize = 1048576;
pub const NODES_PAGE64K_MEM2T: usize = 2097152;
pub const NODES_PAGE64K_MEM4T: usize = 4194304;
pub const NODES_PAGE64K_MEM8T: usize = 8388608;

pub type Buddy32M = BuddyAlloc<DEPTH_PAGE64K_MEM32M, NODES_PAGE64K_MEM32M>;
pub type Buddy64M = BuddyAlloc<DEPTH_PAGE64K_MEM64M, NODES_PAGE64K_MEM64M>;
pub type Buddy128M = BuddyAlloc<DEPTH_PAGE64K_MEM128M, NODES_PAGE64K_MEM128M>;
pub type Buddy256M = BuddyAlloc<DEPTH_PAGE64K_MEM256M, NODES_PAGE64K_MEM256M>;
pub type Buddy512M = BuddyAlloc<DEPTH_PAGE64K_MEM512M, NODES_PAGE64K_MEM512M>;
pub type Buddy1G = BuddyAlloc<DEPTH_PAGE64K_MEM1G, NODES_PAGE64K_MEM1G>;
pub type Buddy2G = BuddyAlloc<DEPTH_PAGE64K_MEM2G, NODES_PAGE64K_MEM2G>;
pub type Buddy4G = BuddyAlloc<DEPTH_PAGE64K_MEM4G, NODES_PAGE64K_MEM4G>;
pub type Buddy8G = BuddyAlloc<DEPTH_PAGE64K_MEM8G, NODES_PAGE64K_MEM8G>;
pub type Buddy16G = BuddyAlloc<DEPTH_PAGE64K_MEM16G, NODES_PAGE64K_MEM16G>;
pub type Buddy32G = BuddyAlloc<DEPTH_PAGE64K_MEM32G, NODES_PAGE64K_MEM32G>;
pub type Buddy64G = BuddyAlloc<DEPTH_PAGE64K_MEM64G, NODES_PAGE64K_MEM64G>;
pub type Buddy128G = BuddyAlloc<DEPTH_PAGE64K_MEM128G, NODES_PAGE64K_MEM128G>;
pub type Buddy256G = BuddyAlloc<DEPTH_PAGE64K_MEM256G, NODES_PAGE64K_MEM256G>;
pub type Buddy512G = BuddyAlloc<DEPTH_PAGE64K_MEM512G, NODES_PAGE64K_MEM512G>;
pub type Buddy1T = BuddyAlloc<DEPTH_PAGE64K_MEM1T, NODES_PAGE64K_MEM1T>;
pub type Buddy2T = BuddyAlloc<DEPTH_PAGE64K_MEM2T, NODES_PAGE64K_MEM2T>;
pub type Buddy4T = BuddyAlloc<DEPTH_PAGE64K_MEM4T, NODES_PAGE64K_MEM4T>;
pub type Buddy8T = BuddyAlloc<DEPTH_PAGE64K_MEM8T, NODES_PAGE64K_MEM8T>;

enum Tag {
    Unused,
    Inner,
    UsedLeaf,
}

impl Tag {
    spec fn bits(self) -> u64 {
        match self {
            Tag::Unused => TAG_UNUSED,
            Tag::Inner => TAG_INNER,
            Tag::UsedLeaf => TAG_USED_LEAF,
        }
    }

    fn to_bits(&self) -> (r: u64)
        ensures
            r == self.bits(),
    {
        match self {
            Tag::Unused => TAG_UNUSED,
            Tag::Inner => TAG_INNER,
            Tag::UsedLeaf => TAG_USED_LEAF,
        }
    }
}

/// Index of node `(d, o)` in breadth-first order.
pub open spec fn node_index(d: nat, o: nat) -> int {
    pow2(d) - 1 + o
}

/// The two bits of slot `j` of word `w`.
pub open spec fn slot_bits(w: u64, j: int) -> u64 {
    (w >> (2 * j) as u64) & 3
}

/// Whether node `(d2, o2)` lies in the subtree of node `(d, o)`.
pub open spec fn in_subtree(d: nat, o: nat, d2: nat, o2: nat) -> bool {
    d <= d2 && o2 / pow2((d2 - d) as nat) == o
}

proof fn lemma_subtree_self(d: nat, o: nat)
    ensures
        in_subtree(d, o, d, o),
{
    assert((d - d) as nat == 0);
    assert(pow2(0) == 1) by {
        lemma2_to64();
    }
    assert(o / 1 == o);
}

/// A node below a child lies below the parent.
proof fn lemma_subtree_child(d: nat, o: nat, c: nat, d2: nat, o2: nat)
    requires
        c == 2 * o || c == 2 * o + 1,
        in_subtree(d + 1, c, d2, o2),
    ensures
        in_subtree(d, o, d2, o2),
{
    let k = (d2 - (d + 1)) as nat;
    assert((d2 - d) as nat == k + 1);
    lemma_pow2_unfold(k + 1);
    lemma_pow2_pos(k);
    lemma_div_denominator(o2 as int, pow2(k) as int, 2);
    lemma_mul_is_commutative(pow2(k) as int, 2);
}

proof fn lemma_slot_update(w: u64, j: u64, t: u64, k: u64)
    requires
        j < 32,
        k < 32,
        t <= 3,
    ensures
        slot_bits((w & !((3u64) << (j * 2))) | (t << (j * 2)), k as int) == if j == k {
            t
        } else {
            slot_bits(w, k as int)
        },
{
    assert(((((w & !((3u64) << (j * 2))) | (t << (j * 2))) >> (2 * k)) & 3) == if j == k {
        t
    } else {
        (w >> (2 * k)) & 3
    }) by (bit_vector)
        requires
            j < 32,
            k < 32,
            t <= 3,
    ;
}

impl<const DEPTH: usize, const NUM_NODES32: usize> BuddyAlloc<DEPTH, NUM_NODES32> {
    /// The tag bits of the node with index `i`.
    pub closed spec fn tag(&self, i: int) -> u64 {
        slot_bits(self.bitmap@[i / 32], i % 32)
    }

    /// The tag bits of node `(d, o)`.
    pub open spec fn tagd(&self, d: nat, o: nat) -> u64 {
        self.tag(node_index(d, o))
    }

    /// Whether `(d, o)` is a node of the tree.
    pub open spec fn valid(d: nat, o: nat) -> bool {
        d <= DEPTH && o < pow2(d)
    }

    /// First address of the heap.
    pub closed spec fn heap_base(&self) -> int {
        self.start as int
    }

    /// Bytes of the heap.
    pub open spec fn heap_bytes() -> int {
        65536 * pow2(DEPTH as nat) as int
    }

    /// Bytes of a block at depth `d`.
    pub open spec fn bsize(d: nat) -> int {
        65536 * pow2((DEPTH - d) as nat) as int
    }

    /// Base address of the block of node `(d, o)`.
    pub closed spec fn base(&self, d: nat, o: nat) -> int {
        self.start + Self::bsize(d) * o
    }

    /// The tree's shape is sound, except that node `(dk, ok)` may be an inner
    /// node whose children are both unused.
    closed spec fn wf_but(&self, dk: int, ok: int) -> bool {
        &&& DEPTH <= 27
        &&& pow2((DEPTH + 1) as nat) - 1 <= 32 * NUM_NODES32
        &&& self.min_size == SIZE_64K
        &&& self.start % 65536 == 0
        &&& self.start + Self::heap_bytes() <= usize::MAX
        &&& forall|d: nat, o: nat| Self::valid(d, o) ==> #[trigger] self.tagd(d, o) <= 2
        &&& forall|d: nat, o: nat|
            Self::valid(d, o) && d > 0 && #[trigger] self.tagd(d, o) != TAG_UNUSED
                ==> self.tagd((d - 1) as nat, o / 2) == TAG_INNER
        &&& forall|d: nat, o: nat|
            Self::valid(d, o) && #[trigger] self.tagd(d, o) == TAG_INNER && !(d == dk && o == ok)
                ==> d < DEPTH && (self.tagd(d + 1, 2 * o) != TAG_UNUSED || self.tagd(
                d + 1,
                2 * o + 1,
            ) != TAG_UNUSED)
    }

    /// Every node is unused, inner or a used leaf; a used or inner node hangs
    /// below an inner node; an inner node has a used or inner child.
    pub closed spec fn tree_wf(&self) -> bool {
        self.wf_but(-1, -1)
    }

    /// The blocks handed out inside the block of node `(d, o)`: base address
    /// to length.
    pub closed spec fn blocks_in(&self, d: nat, o: nat) -> Map<int, int>
        decreases DEPTH - d,
    {
        if d > DEPTH {
            Map::empty()
        } else if self.tagd(d, o) == TAG_USED_LEAF {
            map![self.base(d, o) => Self::bsize(d)]
        } else if self.tagd(d, o) == TAG_INNER && d < DEPTH {
            self.blocks_in(d + 1, 2 * o).union_prefer_right(self.blocks_in(d + 1, 2 * o + 1))
        } else {
            Map::empty()
        }
    }

    /// Whether some block at depth `t` inside node `(d, o)` overlaps no block
    /// handed out.
    pub closed spec fn has_room(&self, d: nat, o: nat, t: nat) -> bool
        decreases DEPTH - d,
    {
        if d > DEPTH {
            false
        } else if self.tagd(d, o) == TAG_UNUSED {
            d <= t
        } else if self.tagd(d, o) == TAG_INNER && d < DEPTH {
            d < t && (self.has_room(d + 1, 2 * o, t) || self.has_room(d + 1, 2 * o + 1, t))
        } else {
            false
        }
    }

    /// The offset, in row `t`, of the leftmost such block inside node `(d, o)`.
    pub closed spec fn first_room(&self, d: nat, o: nat, t: nat) -> nat
        decreases DEPTH - d,
    {
        if d > DEPTH {
            0
        } else if self.tagd(d, o) == TAG_UNUSED {
            o * pow2((t - d) as nat)
        } else if self.tagd(d, o) == TAG_INNER && d < DEPTH {
            if self.has_room(d + 1, 2 * o, t) {
                self.first_room(d + 1, 2 * o, t)
            } else {
                self.first_room(d + 1, 2 * o + 1, t)
            }
        } else {
            0
        }
    }

    /// The depth of the smallest block, at `d` or below, that holds `req` bytes.
    pub open spec fn level_for(req: int, d: nat) -> nat
        decreases DEPTH - d,
    {
        if d < DEPTH && Self::bsize(d + 1) >= req {
            Self::level_for(req, d + 1)
        } else {
            d
        }
    }

    /// Whether a node lies inside the heap's tree, as seen from its parent.
    proof fn lemma_children_valid(d: nat, o: nat)
        requires
            Self::valid(d, o),
            d < DEPTH,
        ensures
            Self::valid(d + 1, 2 * o),
            Self::valid(d + 1, 2 * o + 1),
            (2 * o) / 2 == o,
            (2 * o + 1) / 2 == o,
    {
        lemma_pow2_unfold(d + 1);
    }

    /// What the tree says of a node depends only on the tags in its subtree.
    proof fn lemma_frame(s1: &Self, s2: &Self, d: nat, o: nat, t: nat)
        requires
            s1.start == s2.start,
            s1.min_size == s2.min_size,
            d <= DEPTH ==> Self::valid(d, o),
            forall|d2: nat, o2: nat|
                Self::valid(d2, o2) && in_subtree(d, o, d2, o2) ==> #[trigger] s2.tagd(d2, o2)
                    == s1.tagd(d2, o2),
        ensures
            s2.blocks_in(d, o) == s1.blocks_in(d, o),
            s2.has_room(d, o, t) == s1.has_room(d, o, t),
            s2.first_room(d, o, t) == s1.first_room(d, o, t),
        decreases DEPTH - d,
    {
        if d <= DEPTH {
            lemma_subtree_self(d, o);
            assert(s2.tagd(d, o) == s1.tagd(d, o));
            if d < DEPTH {
                Self::lemma_children_valid(d, o);
                assert forall|d2: nat, o2: nat|
                    Self::valid(d2, o2) && in_subtree(d + 1, 2 * o, d2, o2) implies #[trigger] s2.tagd(
                    d2,
                    o2,
                ) == s1.tagd(d2, o2) by {
                    lemma_subtree_child(d, o, 2 * o, d2, o2);
                }
                assert forall|d2: nat, o2: nat|
                    Self::valid(d2, o2) && in_subtree(d + 1, 2 * o + 1, d2, o2) implies #[trigger] s2.tagd(
                    d2,
                    o2,
                ) == s1.tagd(d2, o2) by {
                    lemma_subtree_child(d, o, 2 * o + 1, d2, o2);
                }
                Self::lemma_frame(s1, s2, d + 1, 2 * o, t);
                Self::lemma_frame(s1, s2, d + 1, 2 * o + 1, t);
            }
        }
    }

    /// The blocks inside a node lie in its block, are page aligned and at
    /// least a page long, and are pairwise disjoint.
    proof fn lemma_blocks_range(&self, d: nat, o: nat)
        requires
            Self::valid(d, o),
            self.min_size == SIZE_64K,
            self.start % 65536 == 0,
        ensures
            forall|a: int| #[trigger]
                self.blocks_in(d, o).contains_key(a) ==> self.base(d, o) <= a && a + self.blocks_in(
                    d,
                    o,
                )[a] <= self.base(d, o) + Self::bsize(d) && a % 65536 == 0 && self.blocks_in(d, o)[a]
                    >= 65536,
            forall|a1: int, a2: int|
                #![trigger self.blocks_in(d, o).contains_key(a1), self.blocks_in(d, o).contains_key(a2)]
                self.blocks_in(d, o).contains_key(a1) && self.blocks_in(d, o).contains_key(a2) && a1
                    != a2 ==> disjoint(a1, self.blocks_in(d, o)[a1], a2, self.blocks_in(d, o)[a2]),
        decreases DEPTH - d,
    {
        self.lemma_base_in_heap(d, o);
        Self::lemma_bsize_pos(d);
        if self.tagd(d, o) == TAG_INNER && d < DEPTH {
            Self::lemma_children_valid(d, o);
            self.lemma_children_base(d, o);
            self.lemma_blocks_range(d + 1, 2 * o);
            self.lemma_blocks_range(d + 1, 2 * o + 1);
            let l = self.blocks_in(d + 1, 2 * o);
            let r = self.blocks_in(d + 1, 2 * o + 1);
            assert(self.blocks_in(d, o) == l.union_prefer_right(r));
            assert forall|a: int| #[trigger] l.contains_key(a) implies !r.contains_key(a) by {}
        }
    }

    /// `level_for` picks the deepest row whose blocks still hold `req` bytes.
    pub proof fn lemma_level(req: int, d: nat)
        requires
            d <= DEPTH,
            req <= Self::bsize(d),
        ensures
            d <= Self::level_for(req, d) <= DEPTH,
            Self::bsize(Self::level_for(req, d)) >= req,
            Self::level_for(req, d) < DEPTH ==> Self::bsize(Self::level_for(req, d) + 1) < req,
        decreases DEPTH - d,
    {
        if d < DEPTH && Self::bsize(d + 1) >= req {
            Self::lemma_level(req, d + 1);
        }
    }

    proof fn lemma_bsize(d: nat)
        requires
            d < DEPTH,
        ensures
            Self::bsize(d) == 2 * Self::bsize(d + 1),
    {
        lemma_pow2_unfold((DEPTH - d) as nat);
        assert(((DEPTH - d) as nat - 1) as nat == (DEPTH - (d + 1)) as nat);
        let m = 65536int;
        let p = pow2((DEPTH - (d + 1)) as nat) as int;
        assert(m * (2 * p) == 2 * (m * p)) by (nonlinear_arith);
    }

    proof fn lemma_children_base(&self, d: nat, o: nat)
        requires
            d < DEPTH,
        ensures
            self.base(d + 1, 2 * o) == self.base(d, o),
            self.base(d + 1, 2 * o + 1) == self.base(d, o) + Self::bsize(d + 1),
            Self::bsize(d) == 2 * Self::bsize(d + 1),
    {
        Self::lemma_bsize(d);
        let b = Self::bsize(d + 1);
        assert(b * (2 * o) == (2 * b) * o) by (nonlinear_arith);
        assert(b * (2 * o + 1) == (2 * b) * o + b) by (nonlinear_arith);
    }

    proof fn lemma_bsize_pos(d: nat)
        requires
            d <= DEPTH,
        ensures
            Self::bsize(d) >= 65536,
            Self::bsize(d) % 65536 == 0,
    {
        lemma_pow2_pos((DEPTH - d) as nat);
        let p = pow2((DEPTH - d) as nat) as int;
        assert(65536 * p >= 65536) by (nonlinear_arith) requires p >= 1;
        lemma_mod_multiples_basic(p, 65536);
    }

    /// The block of a node lies inside the heap.
    proof fn lemma_base_in_heap(&self, d: nat, o: nat)
        requires
            Self::valid(d, o),
            self.min_size == SIZE_64K,
        ensures
            self.start <= self.base(d, o),
            self.base(d, o) + Self::bsize(d) <= self.start + Self::heap_bytes(),
            self.base(d, o) % 65536 == self.start % 65536,
    {
        Self::lemma_bsize_pos(d);
        lemma_pow2_adds((DEPTH - d) as nat, d);
        assert((DEPTH - d) as nat + d == DEPTH as nat);
        let b = Self::bsize(d);
        let p = pow2(d) as int;
        assert(b * p == Self::heap_bytes()) by {
            lemma_mul_is_associative(65536, pow2((DEPTH - d) as nat) as int, p);
        }
        assert(b * o + b <= b * p) by (nonlinear_arith) requires o < p, b >= 0;
        assert(b * o >= 0) by (nonlinear_arith) requires b >= 0;
        assert((b * o) % 65536 == 0) by {
            lemma_mul_is_commutative(b, o as int);
            lemma_mod_multiples_basic(o as int * (b / 65536), 65536);
            assert(b == 65536 * (b / 65536));
            lemma_mul_is_associative(o as int, 65536, b / 65536);
            lemma_mul_is_commutative(o as int, 65536);
            lemma_mul_is_associative(65536, o as int, b / 65536);
        }
        lemma_add_mod_noop(self.start as int, b * o, 65536);
    }

    /// Distinct nodes have distinct indices, and every index fits the bitmap.
    proof fn lemma_index(&self, d1: nat, o1: nat, d2: nat, o2: nat)
        requires
            Self::valid(d1, o1),
            Self::valid(d2, o2),
            pow2((DEPTH + 1) as nat) - 1 <= 32 * NUM_NODES32,
        ensures
            0 <= node_index(d1, o1) < 32 * NUM_NODES32,
            node_index(d1, o1) == node_index(d2, o2) ==> d1 == d2 && o1 == o2,
    {
        lemma_pow2_unfold(d1 + 1);
        lemma_pow2_unfold(d2 + 1);
        lemma_pow2_pos(d1);
        if d1 < DEPTH {
            lemma_pow2_strictly_increases(d1 + 1, (DEPTH + 1) as nat);
        }
        if d1 < d2 {
            if d1 + 1 < d2 {
                lemma_pow2_strictly_increases(d1 + 1, d2);
            }
        } else if d2 < d1 {
            if d2 + 1 < d1 {
                lemma_pow2_strictly_increases(d2 + 1, d1);
            }
        }
    }

    /// After a write of the tag of node `(d, o)`, every other node keeps its tag.
    proof fn lemma_tag_frame(s1: &Self, s2: &Self, d: nat, o: nat)
        requires
            pow2((DEPTH + 1) as nat) - 1 <= 32 * NUM_NODES32,
            Self::valid(d, o),
            forall|k: int|
                0 <= k < 32 * NUM_NODES32 && k != node_index(d, o) ==> #[trigger] s2.tag(k)
                    == s1.tag(k),
        ensures
            forall|d2: nat, o2: nat|
                Self::valid(d2, o2) && !(d2 == d && o2 == o) ==> #[trigger] s2.tagd(d2, o2)
                    == s1.tagd(d2, o2),
    {
        assert forall|d2: nat, o2: nat|
            Self::valid(d2, o2) && !(d2 == d && o2 == o) implies #[trigger] s2.tagd(d2, o2)
            == s1.tagd(d2, o2) by {
            s1.lemma_index(d2, o2, d, o);
        }
    }

    /// Turning an unused node below an inner node into an inner node or a
    /// used leaf keeps the tree sound, but for the new inner node itself.
    proof fn lemma_mark(s1: &Self, s2: &Self, d: nat, o: nat, v: u64)
        requires
            s1.wf_but(d - 1, (o / 2) as int),
            Self::valid(d, o),
            s1.tagd(d, o) == TAG_UNUSED,
            d > 0 ==> s1.tagd((d - 1) as nat, o / 2) == TAG_INNER,
            v == TAG_INNER || v == TAG_USED_LEAF,
            v == TAG_INNER ==> d < DEPTH,
            s2.start == s1.start,
            s2.min_size == s1.min_size,
            s2.tagd(d, o) == v,
            forall|d2: nat, o2: nat|
                Self::valid(d2, o2) && !(d2 == d && o2 == o) ==> #[trigger] s2.tagd(d2, o2)
                    == s1.tagd(d2, o2),
        ensures
            v == TAG_INNER ==> s2.wf_but(d as int, o as int),
            v == TAG_USED_LEAF ==> s2.tree_wf(),
    {
        let dk: int = if v == TAG_INNER { d as int } else { -1 };
        let ok: int = if v == TAG_INNER { o as int } else { -1 };
        assert forall|d2: nat, o2: nat|
            Self::valid(d2, o2) && d2 > 0 && #[trigger] s2.tagd(d2, o2) != TAG_UNUSED implies s2.tagd(
            (d2 - 1) as nat,
            o2 / 2,
        ) == TAG_INNER by {
            lemma_pow2_unfold(d2);
            if !(d2 == d && o2 == o) {
                assert(s1.tagd(d2, o2) != TAG_UNUSED);
                assert(s1.tagd((d2 - 1) as nat, o2 / 2) == TAG_INNER);
            }
        }
        assert forall|d2: nat, o2: nat|
            Self::valid(d2, o2) && #[trigger] s2.tagd(d2, o2) == TAG_INNER && !(d2 == dk && o2
                == ok) implies d2 < DEPTH && (s2.tagd(d2 + 1, 2 * o2) != TAG_UNUSED || s2.tagd(
            d2 + 1,
            2 * o2 + 1,
        ) != TAG_UNUSED) by {
            assert(s1.tagd(d2, o2) == TAG_INNER);
            assert(d2 < DEPTH);
            Self::lemma_children_valid(d2, o2);
            if d > 0 && d2 == d - 1 && o2 == o / 2 {
                if o % 2 == 0 {
                    assert(o == 2 * o2);
                } else {
                    assert(o == 2 * o2 + 1);
                }
            } else {
                assert(s1.tagd(d2 + 1, 2 * o2) != TAG_UNUSED || s1.tagd(d2 + 1, 2 * o2 + 1)
                    != TAG_UNUSED);
            }
        }
    }

    /// Turning a used leaf, or an inner node whose children are both unused,
    /// into an unused node keeps the tree sound, but for its parent.
    proof fn lemma_unmark(s1: &Self, s2: &Self, d: nat, o: nat)
        requires
            s1.wf_but(d as int, o as int),
            Self::valid(d, o),
            s1.tagd(d, o) == TAG_USED_LEAF || (s1.tagd(d, o) == TAG_INNER && d < DEPTH
                && s1.tagd(d + 1, 2 * o) == TAG_UNUSED && s1.tagd(d + 1, 2 * o + 1) == TAG_UNUSED),
            s2.start == s1.start,
            s2.min_size == s1.min_size,
            s2.tagd(d, o) == TAG_UNUSED,
            forall|d2: nat, o2: nat|
                Self::valid(d2, o2) && !(d2 == d && o2 == o) ==> #[trigger] s2.tagd(d2, o2)
                    == s1.tagd(d2, o2),
        ensures
            s2.wf_but(d - 1, (o / 2) as int),
    {
        assert forall|d2: nat, o2: nat|
            Self::valid(d2, o2) && d2 > 0 && #[trigger] s2.tagd(d2, o2) != TAG_UNUSED implies s2.tagd(
            (d2 - 1) as nat,
            o2 / 2,
        ) == TAG_INNER by {
            lemma_pow2_unfold(d2);
            assert(s1.tagd(d2, o2) != TAG_UNUSED);
            assert(s1.tagd((d2 - 1) as nat, o2 / 2) == TAG_INNER);
            if d2 - 1 == d && o2 / 2 == o {
                if o2 % 2 == 0 {
                    assert(o2 == 2 * o);
                } else {
                    assert(o2 == 2 * o + 1);
                }
            }
        }
        assert forall|d2: nat, o2: nat|
            Self::valid(d2, o2) && #[trigger] s2.tagd(d2, o2) == TAG_INNER && !(d2 == d - 1 && o2
                == o / 2) implies d2 < DEPTH && (s2.tagd(d2 + 1, 2 * o2) != TAG_UNUSED || s2.tagd(
            d2 + 1,
            2 * o2 + 1,
        ) != TAG_UNUSED) by {
            assert(s1.tagd(d2, o2) == TAG_INNER);
            Self::lemma_children_valid(d2, o2);
            if 2 * o2 == o && d2 + 1 == d {
                assert(o2 == o / 2);
            }
            if 2 * o2 + 1 == o && d2 + 1 == d {
                assert(o2 == o / 2);
            }
        }
    }

    /// A tree sound but at one node is sound where that node keeps an inner
    /// or used child.
    proof fn lemma_wf_restored(s: &Self, d: nat, o: nat, dk: int, ok: int)
        requires
            s.wf_but(d as int, o as int),
            Self::valid(d, o),
            s.tagd(d, o) == TAG_INNER ==> d < DEPTH && (s.tagd(d + 1, 2 * o) != TAG_UNUSED
                || s.tagd(d + 1, 2 * o + 1) != TAG_UNUSED),
        ensures
            s.wf_but(dk, ok),
    {
    }

    /// A block freed inside one child is a block freed inside the parent.
    proof fn lemma_freed_in_child(s0: &Self, s1: &Self, d: nat, o: nat, c: nat, a: int)
        requires
            s0.tree_wf(),
            Self::valid(d, o),
            d < DEPTH,
            s0.tagd(d, o) == TAG_INNER,
            c == 2 * o || c == 2 * o + 1,
            s1.start == s0.start,
            s1.min_size == s0.min_size,
            forall|d2: nat, o2: nat|
                Self::valid(d2, o2) && !in_subtree(d + 1, c, d2, o2) ==> #[trigger] s1.tagd(d2, o2)
                    == s0.tagd(d2, o2),
            s0.blocks_in(d + 1, c).contains_key(a),
            s1.blocks_in(d + 1, c) == s0.blocks_in(d + 1, c).remove(a),
            s0.base(d + 1, c) <= a < s0.base(d + 1, c) + Self::bsize(d + 1),
        ensures
            s0.blocks_in(d, o).contains_key(a),
            s0.blocks_in(d, o)[a] == s0.blocks_in(d + 1, c)[a],
            s1.blocks_in(d, o) == s0.blocks_in(d, o).remove(a),
            s1.tagd(d, o) == TAG_INNER,
            forall|d2: nat, o2: nat|
                Self::valid(d2, o2) && !in_subtree(d, o, d2, o2) ==> #[trigger] s1.tagd(d2, o2)
                    == s0.tagd(d2, o2),
    {
        s0.lemma_children_base(d, o);
        Self::lemma_children_valid(d, o);
        s0.lemma_blocks_range(d + 1, 2 * o);
        s0.lemma_blocks_range(d + 1, 2 * o + 1);
        let sib: nat = if c == 2 * o { 2 * o + 1 } else { 2 * o };
        assert(!in_subtree(d + 1, c, d, o));
        assert(s1.tagd(d, o) == TAG_INNER);
        assert forall|d2: nat, o2: nat|
            Self::valid(d2, o2) && in_subtree(d + 1, sib, d2, o2) implies #[trigger] s1.tagd(d2, o2)
            == s0.tagd(d2, o2) by {}
        Self::lemma_frame(s0, s1, d + 1, sib, 0);
        assert(!s0.blocks_in(d + 1, sib).contains_key(a));
        assert(s1.blocks_in(d, o) =~= s0.blocks_in(d, o).remove(a));
        assert forall|d2: nat, o2: nat|
            Self::valid(d2, o2) && !in_subtree(d, o, d2, o2) implies #[trigger] s1.tagd(d2, o2)
            == s0.tagd(d2, o2) by {
            if in_subtree(d + 1, c, d2, o2) {
                lemma_subtree_child(d, o, c, d2, o2);
            }
        }
    }

    /// A block taken inside one child is a block taken inside the parent.
    proof fn lemma_found_in_child(s0: &Self, s1: &Self, d: nat, o: nat, c: nat, t: nat, a: int)
        requires
            s0.tree_wf(),
            Self::valid(d, o),
            d < DEPTH,
            t <= DEPTH,
            s0.tagd(d, o) == TAG_INNER,
            c == 2 * o || c == 2 * o + 1,
            s1.start == s0.start,
            s1.min_size == s0.min_size,
            forall|d2: nat, o2: nat|
                Self::valid(d2, o2) && !in_subtree(d + 1, c, d2, o2) ==> #[trigger] s1.tagd(d2, o2)
                    == s0.tagd(d2, o2),
            !s0.blocks_in(d + 1, c).contains_key(a),
            s1.blocks_in(d + 1, c) == s0.blocks_in(d + 1, c).insert(a, Self::bsize(t)),
            s0.base(d + 1, c) <= a,
            a + Self::bsize(t) <= s0.base(d + 1, c) + Self::bsize(d + 1),
        ensures
            !s0.blocks_in(d, o).contains_key(a),
            s1.blocks_in(d, o) == s0.blocks_in(d, o).insert(a, Self::bsize(t)),
            forall|d2: nat, o2: nat|
                Self::valid(d2, o2) && !in_subtree(d, o, d2, o2) ==> #[trigger] s1.tagd(d2, o2)
                    == s0.tagd(d2, o2),
    {
        s0.lemma_children_base(d, o);
        Self::lemma_children_valid(d, o);
        Self::lemma_bsize_pos(t);
        s0.lemma_blocks_range(d + 1, 2 * o);
        s0.lemma_blocks_range(d + 1, 2 * o + 1);
        let sib: nat = if c == 2 * o { 2 * o + 1 } else { 2 * o };
        assert(!in_subtree(d + 1, c, d, o));
        assert(s1.tagd(d, o) == TAG_INNER);
        assert forall|d2: nat, o2: nat|
            Self::valid(d2, o2) && in_subtree(d + 1, sib, d2, o2) implies #[trigger] s1.tagd(d2, o2)
            == s0.tagd(d2, o2) by {}
        Self::lemma_frame(s0, s1, d + 1, sib, 0);
        assert(!s0.blocks_in(d + 1, sib).contains_key(a));
        assert(s1.blocks_in(d, o) =~= s0.blocks_in(d, o).insert(a, Self::bsize(t)));
        assert forall|d2: nat, o2: nat|
            Self::valid(d2, o2) && !in_subtree(d, o, d2, o2) implies #[trigger] s1.tagd(d2, o2)
            == s0.tagd(d2, o2) by {
            if in_subtree(d + 1, c, d2, o2) {
                lemma_subtree_child(d, o, c, d2, o2);
            }
        }
    }

    fn get_tag(&self, idx: usize) -> (r: Tag)
        requires
            idx < 32 * NUM_NODES32,
            self.tag(idx as int) <= 2,
        ensures
            r.bits() == self.tag(idx as int),
    {
        let i = idx >> 5;
        let j = idx & 0b11111;
        assert((idx >> 5) == idx / 32 && (idx & 0b11111) == idx % 32) by (bit_vector);
        let v = (self.bitmap[i] >> (j * 2) as u64) & 0b11;
        if v == TAG_UNUSED {
            Tag::Unused
        } else if v == TAG_INNER {
            Tag::Inner
        } else {
            Tag::UsedLeaf
        }
    }

    fn set_tag(&mut self, idx: usize, tag: Tag)
        requires
            idx < 32 * NUM_NODES32,
        ensures
            final(self).start == old(self).start,
            final(self).min_size == old(self).min_size,
            final(self).tag(idx as int) == tag.bits(),
            forall|k: int|
                0 <= k < 32 * NUM_NODES32 && k != idx ==> #[trigger] final(self).tag(k) == old(
                    self,
                ).tag(k),
    {
        let i = idx >> 5;
        let j = idx & 0b11111;
        assert((idx >> 5) == idx / 32 && (idx & 0b11111) == idx % 32) by (bit_vector);
        let t = tag.to_bits();
        let mask: u64 = 0b11 << (j * 2) as u64;
        let val = self.bitmap[i] & !mask;
        let old_word = self.bitmap[i];
        self.bitmap[i] = val | (t << (j * 2) as u64);
        proof {
            lemma_slot_update(old_word, j as u64, t, j as u64);
            assert forall|k: int| 0 <= k < 32 * NUM_NODES32 && k != idx implies #[trigger] self.tag(
                k,
            ) == old(self).tag(k) by {
                if k / 32 == i as int {
                    lemma_slot_update(old_word, j as u64, t, (k % 32) as u64);
                }
            }
        }
    }

    fn get_idx(depth: usize, offset: usize) -> (r: usize)
        requires
            depth <= 27,
            offset < pow2(depth as nat),
        ensures
            r == node_index(depth as nat, offset as nat),
    {
        proof {
            lemma2_to64();
        }
        if depth == 0 {
            0
        } else {
            proof {
                if depth < 27 {
                    lemma_pow2_strictly_increases(depth as nat, 27);
                }
                vstd::bits::lemma_usize_shl_is_mul(1, depth);
            }
            (1 << depth) - 1 + offset
        }
    }

    /// Takes an unused node for a request of `req` bytes: splits it, always
    /// into the left half, while a half still holds the request, and makes the
    /// block reached a used leaf.
    fn claim(&mut self, req: usize, bytes: usize, depth: usize, offset: usize) -> (r: usize)
        requires
            old(self).wf_but(depth - 1, (offset / 2) as int),
            Self::valid(depth as nat, offset as nat),
            depth > 0 ==> old(self).tagd((depth - 1) as nat, (offset / 2) as nat) == TAG_INNER,
            old(self).tagd(depth as nat, offset as nat) == TAG_UNUSED,
            bytes == Self::bsize(depth as nat),
            req <= bytes,
        ensures
            final(self).tree_wf(),
            final(self).start == old(self).start,
            final(self).min_size == old(self).min_size,
            ({
                let t = Self::level_for(req as int, depth as nat);
                &&& r == old(self).base(t, (offset * pow2((t - depth) as nat)) as nat)
                &&& final(self).blocks_in(depth as nat, offset as nat) == map![r as int => Self::bsize(t)]
                &&& old(self).base(depth as nat, offset as nat) <= r
                &&& r + Self::bsize(t) <= old(self).base(depth as nat, offset as nat) + bytes
            }),
            forall|d2: nat, o2: nat|
                Self::valid(d2, o2) && !in_subtree(depth as nat, offset as nat, d2, o2)
                    ==> #[trigger] final(self).tagd(d2, o2) == old(self).tagd(d2, o2),
        decreases DEPTH - depth,
    {
        let ghost s0 = *self;
        let ghost d = depth as nat;
        let ghost o = offset as nat;
        proof {
            s0.lemma_base_in_heap(d, o);
            s0.lemma_index(d, o, d, o);
            lemma_subtree_self(d, o);
        }
        let idx = Self::get_idx(depth, offset);
        let next_bytes = bytes >> 1;
        assert(next_bytes == bytes / 2) by (bit_vector)
            requires next_bytes == bytes >> 1;
        if next_bytes >= req && depth < DEPTH {
            proof {
                s0.lemma_children_base(d, o);
                Self::lemma_children_valid(d, o);
            }
            self.set_tag(idx, Tag::Inner);
            let ghost s1 = *self;
            proof {
                Self::lemma_tag_frame(&s0, &s1, d, o);
                Self::lemma_mark(&s0, &s1, d, o, TAG_INNER);
                assert(s1.wf_but(((depth + 1) - 1) as int, ((offset * 2) / 2) as int));
            }
            let r = self.claim(req, next_bytes, depth + 1, offset * 2);
            proof {
                let t = Self::level_for(req as int, d);
                assert(t == Self::level_for(req as int, d + 1));
                Self::lemma_level(req as int, d + 1);
                lemma_pow2_unfold((t - d) as nat);
                assert(((t - d) as nat - 1) as nat == (t - (d + 1)) as nat);
                let p = pow2((t - (d + 1)) as nat) as int;
                assert(o * (2 * p) == (2 * o) * p) by (nonlinear_arith);
                // the right child was unused, and the recursion left it alone
                assert(s0.tagd(d + 1, 2 * o + 1) == TAG_UNUSED);
                lemma_subtree_self(d + 1, 2 * o + 1);
                assert(!in_subtree(d + 1, 2 * o, d + 1, 2 * o + 1));
                assert(!in_subtree(d + 1, 2 * o, d, o));
                assert(self.tagd(d + 1, 2 * o + 1) == TAG_UNUSED);
                assert(self.tagd(d, o) == TAG_INNER);
                assert(self.blocks_in(d + 1, 2 * o + 1) == Map::<int, int>::empty());
                assert(self.blocks_in(d, o) =~= map![r as int => Self::bsize(t)]);
                assert forall|d2: nat, o2: nat|
                    Self::valid(d2, o2) && !in_subtree(d, o, d2, o2) implies #[trigger] self.tagd(
                    d2,
                    o2,
                ) == s0.tagd(d2, o2) by {
                    if in_subtree(d + 1, 2 * o, d2, o2) {
                        lemma_subtree_child(d, o, 2 * o, d2, o2);
                    }
                }
            }
            r
        } else {
            self.set_tag(idx, Tag::UsedLeaf);
            let ghost s1 = *self;
            proof {
                Self::lemma_tag_frame(&s0, &s1, d, o);
                Self::lemma_mark(&s0, &s1, d, o, TAG_USED_LEAF);
                let t = Self::level_for(req as int, d);
                if depth < DEPTH {
                    Self::lemma_bsize(d);
                }
                assert(t == d);
                assert((t - d) as nat == 0);
                assert(pow2(0) == 1) by {
                    lemma2_to64();
                }
                assert(o * 1 == o);
                assert(s1.blocks_in(d, o) =~= map![s0.base(d, o) => Self::bsize(t)]);
            }
            self.start + bytes * offset
        }
    }

    #[verifier::rlimit(60)]
    fn release_mem(&mut self, addr: usize, bytes: usize, depth: usize, offset: usize) -> (r: Option<
        usize,
    >)
        requires
            old(self).tree_wf(),
            Self::valid(depth as nat, offset as nat),
            bytes == Self::bsize(depth as nat),
            old(self).base(depth as nat, offset as nat) <= addr < old(self).base(
                depth as nat,
                offset as nat,
            ) + bytes,
        ensures
            final(self).start == old(self).start,
            final(self).min_size == old(self).min_size,
            r is Some == old(self).blocks_in(depth as nat, offset as nat).contains_key(addr as int),
            r matches Some(n) ==> n == old(self).blocks_in(depth as nat, offset as nat)[addr as int],
            r is Some ==> final(self).wf_but(depth - 1, (offset / 2) as int),
            r is Some ==> final(self).blocks_in(depth as nat, offset as nat) == old(self).blocks_in(
                depth as nat,
                offset as nat,
            ).remove(addr as int),
            r is None ==> *final(self) == *old(self),
            forall|d2: nat, o2: nat|
                Self::valid(d2, o2) && !in_subtree(depth as nat, offset as nat, d2, o2)
                    ==> #[trigger] final(self).tagd(d2, o2) == old(self).tagd(d2, o2),
        decreases DEPTH - depth,
    {
        let ghost s0 = *self;
        let ghost d = depth as nat;
        let ghost o = offset as nat;
        proof {
            s0.lemma_index(d, o, d, o);
            s0.lemma_base_in_heap(d, o);
            lemma_subtree_self(d, o);
            assert(s0.tagd(d, o) <= 2);
        }
        let idx = Self::get_idx(depth, offset);
        match self.get_tag(idx) {
            Tag::Unused => {
                // freed unused memory
                None
            },
            Tag::UsedLeaf => {
                let target = self.start + bytes * offset;
                if target == addr {
                    self.set_tag(idx, Tag::Unused);
                    proof {
                        let s1 = *self;
                        Self::lemma_tag_frame(&s0, &s1, d, o);
                        Self::lemma_unmark(&s0, &s1, d, o);
                        assert(s1.blocks_in(d, o) =~= s0.blocks_in(d, o).remove(addr as int));
                    }
                    Some(bytes)
                } else {
                    // freed invalid address
                    None
                }
            },
            Tag::Inner => {
                proof {
                    s0.lemma_children_base(d, o);
                    Self::lemma_children_valid(d, o);
                    s0.lemma_blocks_range(d + 1, 2 * o);
                    s0.lemma_blocks_range(d + 1, 2 * o + 1);
                    s0.lemma_index(d + 1, 2 * o, d + 1, 2 * o);
                    s0.lemma_index(d + 1, 2 * o + 1, d + 1, 2 * o + 1);
                    lemma_subtree_self(d + 1, 2 * o);
                    lemma_subtree_self(d + 1, 2 * o + 1);
                }
                let half = bytes >> 1;
                assert(half == bytes / 2) by (bit_vector)
                    requires half == bytes >> 1;
                let pivot = self.start + bytes * offset + half;
                let ok = if addr < pivot {
                    self.release_mem(addr, half, depth + 1, offset * 2)
                } else {
                    self.release_mem(addr, half, depth + 1, offset * 2 + 1)
                };
                proof {
                    let l = s0.blocks_in(d + 1, 2 * o);
                    let rr = s0.blocks_in(d + 1, 2 * o + 1);
                    assert(s0.blocks_in(d, o) == l.union_prefer_right(rr));
                    if addr < pivot {
                        assert(!rr.contains_key(addr as int));
                    } else {
                        assert(!l.contains_key(addr as int));
                    }
                }
                if ok.is_none() {
                    return None;
                }
                let ghost s1 = *self;
                proof {
                    let c: nat = if addr < pivot { 2 * o } else { 2 * o + 1 };
                    Self::lemma_freed_in_child(&s0, &s1, d, o, c, addr as int);
                    assert(s1.tagd(d + 1, 2 * o) <= 2 && s1.tagd(d + 1, 2 * o + 1) <= 2);
                }

                // combine buddy if both blocks are unused
                let left = Self::get_idx(depth + 1, offset * 2);
                let right = Self::get_idx(depth + 1, offset * 2 + 1);
                if let Tag::Unused = self.get_tag(left) {
                    if let Tag::Unused = self.get_tag(right) {
                        self.set_tag(idx, Tag::Unused);
                        proof {
                            let s2 = *self;
                            Self::lemma_tag_frame(&s1, &s2, d, o);
                            Self::lemma_unmark(&s1, &s2, d, o);
                            assert(s1.blocks_in(d + 1, 2 * o) == Map::<int, int>::empty());
                            assert(s1.blocks_in(d + 1, 2 * o + 1) == Map::<int, int>::empty());
                            assert(s2.blocks_in(d, o) =~= s1.blocks_in(d, o));
                            assert forall|d2: nat, o2: nat|
                                Self::valid(d2, o2) && !in_subtree(d, o, d2, o2) implies #[trigger] s2.tagd(
                                d2,
                                o2,
                            ) == s0.tagd(d2, o2) by {
                                assert(s1.tagd(d2, o2) == s0.tagd(d2, o2));
                            }
                        }
                        return ok;
                    }
                }
                proof {
                    Self::lemma_wf_restored(&s1, d, o, d - 1, (o / 2) as int);
                }
                ok
            },
        }
    }

    /// Allocates a block for `size` bytes: the leftmost block that overlaps
    /// no block handed out, among the smallest blocks that hold `size` bytes.
    pub fn buddy_alloc(&mut self, size: usize) -> (r: Option<usize>)
        requires
            old(self).tree_wf(),
        ensures
            final(self).tree_wf(),
            final(self).heap_base() == old(self).heap_base(),
            ({
                let t = Self::level_for(size as int, 0);
                &&& r.is_some() == (size <= Self::heap_bytes() && old(self).has_room(0, 0, t))
                &&& r matches Some(a) ==> {
                    &&& a == old(self).base(t, old(self).first_room(0, 0, t))
                    &&& !old(self).blocks_in(0, 0).contains_key(a as int)
                    &&& final(self).blocks_in(0, 0) == old(self).blocks_in(0, 0).insert(
                        a as int,
                        Self::bsize(t),
                    )
                    &&& Self::bsize(t) >= size
                    &&& t < DEPTH ==> Self::bsize(t + 1) < size
                }
            }),
            r is None ==> *final(self) == *old(self),
    {
        proof {
            lemma2_to64();
            if DEPTH < 27 {
                lemma_pow2_strictly_increases(DEPTH as nat, 27);
            }
            vstd::bits::lemma_usize_shl_is_mul(1, DEPTH);
            assert((DEPTH - 0) as nat == DEPTH as nat);
            if size <= Self::heap_bytes() {
                Self::lemma_level(size as int, 0);
            }
        }
        self.find_mem(size, (1 << DEPTH) * self.min_size, 0, 0)
    }

    /// Takes back the block whose base is `addr`, merging freed buddies, and
    /// returns its length; `None` when no block handed out starts at `addr`,
    /// and then nothing changes.
    pub fn buddy_free(&mut self, addr: usize) -> (r: Option<usize>)
        requires
            old(self).tree_wf(),
        ensures
            final(self).tree_wf(),
            final(self).heap_base() == old(self).heap_base(),
            r is Some == old(self).blocks_in(0, 0).contains_key(addr as int),
            r matches Some(n) ==> n == old(self).blocks_in(0, 0)[addr as int],
            r is Some ==> final(self).blocks_in(0, 0) == old(self).blocks_in(0, 0).remove(
                addr as int,
            ),
            r is None ==> *final(self) == *old(self),
    {
        proof {
            lemma2_to64();
            if DEPTH < 27 {
                lemma_pow2_strictly_increases(DEPTH as nat, 27);
            }
            vstd::bits::lemma_usize_shl_is_mul(1, DEPTH);
            assert((DEPTH - 0) as nat == DEPTH as nat);
            self.lemma_blocks_range(0, 0);
            assert(self.base(0, 0) == self.start);
        }
        let bytes = (1 << DEPTH) * self.min_size;
        if addr < self.start || addr - self.start >= bytes {
            return None;
        }
        self.release_mem(addr, bytes, 0, 0)
    }

    #[verifier::rlimit(100)]
    #[verifier::spinoff_prover]
    fn find_mem(
        &mut self,
        req: usize,  // requested bytes
        bytes: usize,  // total bytes of this block
        depth: usize,
        offset: usize,  // offset of current node in the depth
    ) -> (r: Option<usize>)
        requires
            old(self).tree_wf(),
            Self::valid(depth as nat, offset as nat),
            bytes == Self::bsize(depth as nat),
            depth > 0 ==> old(self).tagd((depth - 1) as nat, (offset / 2) as nat) == TAG_INNER,
        ensures
            final(self).tree_wf(),
            final(self).start == old(self).start,
            final(self).min_size == old(self).min_size,
            ({
                let d = depth as nat;
                let o = offset as nat;
                let t = Self::level_for(req as int, d);
                &&& r.is_some() == (req <= bytes && old(self).has_room(d, o, t))
                &&& r matches Some(a) ==> {
                    &&& a == old(self).base(t, old(self).first_room(d, o, t))
                    &&& !old(self).blocks_in(d, o).contains_key(a as int)
                    &&& final(self).blocks_in(d, o) == old(self).blocks_in(d, o).insert(
                        a as int,
                        Self::bsize(t),
                    )
                    &&& old(self).base(d, o) <= a
                    &&& a + Self::bsize(t) <= old(self).base(d, o) + bytes
                }
            }),
            r is None ==> *final(self) == *old(self),
            forall|d2: nat, o2: nat|
                Self::valid(d2, o2) && !in_subtree(depth as nat, offset as nat, d2, o2)
                    ==> #[trigger] final(self).tagd(d2, o2) == old(self).tagd(d2, o2),
        decreases DEPTH - depth,
    {
        let ghost s0 = *self;
        let ghost d = depth as nat;
        let ghost o = offset as nat;
        let ghost t = Self::level_for(req as int, d);
        if req > bytes || depth > DEPTH {
            return None;
        }
        proof {
            s0.lemma_index(d, o, d, o);
            Self::lemma_level(req as int, d);
            Self::lemma_bsize_pos(t);
            assert(s0.tagd(d, o) <= 2);
        }
        let idx = Self::get_idx(depth, offset);

        match self.get_tag(idx) {
            Tag::UsedLeaf => None,
            Tag::Unused => {
                proof {
                    assert(s0.blocks_in(d, o) == Map::<int, int>::empty());
                    assert(s0.first_room(d, o, t) == o * pow2((t - d) as nat));
                }
                let r = self.claim(req, bytes, depth, offset);
                proof {
                    assert(self.blocks_in(d, o) =~= s0.blocks_in(d, o).insert(r as int, Self::bsize(t)));
                }
                Some(r)
            },
            Tag::Inner => {
                proof {
                    s0.lemma_children_base(d, o);
                    Self::lemma_children_valid(d, o);
                    s0.lemma_blocks_range(d + 1, 2 * o);
                    s0.lemma_blocks_range(d + 1, 2 * o + 1);
                    if req <= Self::bsize(d + 1) {
                        assert(t == Self::level_for(req as int, d + 1));
                    } else {
                        assert(t == d);
                    }
                }
                let half = bytes >> 1;
                assert(half == bytes / 2) by (bit_vector)
                    requires half == bytes >> 1;
                match self.find_mem(req, half, depth + 1, offset * 2) {
                    None => {
                        let ret = self.find_mem(req, half, depth + 1, offset * 2 + 1);
                        proof {
                            if let Some(a) = ret {
                                Self::lemma_found_in_child(&s0, self, d, o, 2 * o + 1, t, a as int);
                            }
                        }
                        ret
                    },
                    ret => {
                        proof {
                            let a = ret->Some_0;
                            Self::lemma_found_in_child(&s0, self, d, o, 2 * o, t, a as int);
                        }
                        ret
                    },
                }
            },
        }
    }
}

impl<const DEPTH: usize, const NUM_NODES32: usize> BuddyAlloc<DEPTH, NUM_NODES32> {
    /// A node that is not unused holds a block handed out below it.
    proof fn lemma_nonempty(&self, d: nat, o: nat)
        requires
            self.tree_wf(),
            Self::valid(d, o),
            self.tagd(d, o) != TAG_UNUSED,
        ensures
            exists|a: int| #[trigger] self.blocks_in(d, o).contains_key(a),
        decreases DEPTH - d,
    {
        if self.tagd(d, o) == TAG_USED_LEAF {
            assert(self.blocks_in(d, o).contains_key(self.base(d, o)));
        } else {
            Self::lemma_children_valid(d, o);
            if self.tagd(d + 1, 2 * o) != TAG_UNUSED {
                self.lemma_nonempty(d + 1, 2 * o);
                let a = choose|a: int| #[trigger] self.blocks_in(d + 1, 2 * o).contains_key(a);
                assert(self.blocks_in(d, o).contains_key(a));
            } else {
                self.lemma_nonempty(d + 1, 2 * o + 1);
                let a = choose|a: int| #[trigger] self.blocks_in(d + 1, 2 * o + 1).contains_key(a);
                assert(self.blocks_in(d, o).contains_key(a));
            }
        }
    }

    /// Above a node that is not unused, the root is not unused either.
    proof fn lemma_root_used(&self, d: nat, o: nat)
        requires
            self.tree_wf(),
            Self::valid(d, o),
            self.tagd(d, o) != TAG_UNUSED,
        ensures
            self.tagd(0, 0) != TAG_UNUSED,
        decreases d,
    {
        if d > 0 {
            lemma_pow2_unfold(d);
            assert(self.tagd((d - 1) as nat, o / 2) == TAG_INNER);
            self.lemma_root_used((d - 1) as nat, o / 2);
        } else {
            assert(o == 0) by {
                lemma2_to64();
            }
        }
    }

    /// A tree with no block handed out has room for any request up to the
    /// heap's size, at its first block: the request gets the heap's base.
    pub proof fn lemma_fresh_room(&self, size: int)
        requires
            self.tree_wf(),
            self.blocks_in(0, 0) == Map::<int, int>::empty(),
            size <= Self::heap_bytes(),
        ensures
            self.has_room(0, 0, Self::level_for(size, 0)),
            self.first_room(0, 0, Self::level_for(size, 0)) == 0,
            self.base(Self::level_for(size, 0), 0) == self.heap_base(),
    {
        lemma2_to64();
        assert(Self::valid(0, 0));
        self.lemma_all_free();
        assert((DEPTH - 0) as nat == DEPTH as nat);
        Self::lemma_level(size, 0);
    }

    /// Once every block handed out is freed, every node of the tree is unused,
    /// as `new` left it: freeing merges buddies all the way up.
    pub proof fn lemma_all_free(&self)
        requires
            self.tree_wf(),
            self.blocks_in(0, 0) == Map::<int, int>::empty(),
        ensures
            forall|d: nat, o: nat| Self::valid(d, o) ==> #[trigger] self.tagd(d, o) == TAG_UNUSED,
    {
        assert forall|d: nat, o: nat| Self::valid(d, o) implies #[trigger] self.tagd(d, o)
            == TAG_UNUSED by {
            if self.tagd(d, o) != TAG_UNUSED {
                self.lemma_root_used(d, o);
                lemma2_to64();
                self.lemma_nonempty(0, 0);
            }
        }
    }
}

impl<const DEPTH: usize, const NUM_NODES32: usize> MemAlloc for BuddyAlloc<DEPTH, NUM_NODES32> {
    open spec fn wf(&self) -> bool {
        self.tree_wf()
    }

    open spec fn can_allocate(&self, size: usize) -> bool {
        size <= Self::heap_bytes() && self.has_room(0, 0, Self::level_for(size as int, 0))
    }

    open spec fn pick(&self, size: usize) -> int {
        self.base(
            Self::level_for(size as int, 0),
            self.first_room(0, 0, Self::level_for(size as int, 0)),
        )
    }

    open spec fn heap_start(&self) -> int {
        self.heap_base()
    }

    open spec fn heap_end(&self) -> int {
        self.heap_base() + Self::heap_bytes()
    }

    open spec fn blocks(&self) -> Map<int, int> {
        self.blocks_in(0, 0)
    }

    open spec fn accepts(start_addr: usize, size: usize) -> bool {
        &&& DEPTH <= 27
        &&& pow2((DEPTH + 1) as nat) - 1 <= 32 * NUM_NODES32
        &&& start_addr % 65536 == 0
        &&& size == Self::heap_bytes()
        &&& start_addr + size <= usize::MAX
    }

    proof fn lemma_blocks(&self) {
        lemma2_to64();
        self.lemma_blocks_range(0, 0);
        assert((DEPTH - 0) as nat == DEPTH as nat);
        assert(self.base(0, 0) == self.start);
    }

    fn allocate(&mut self, size: usize) -> (r: Option<usize>) {
        let r = self.buddy_alloc(size);
        proof {
            if size <= Self::heap_bytes() {
                Self::lemma_level(size as int, 0);
            }
        }
        r
    }

    fn free(&mut self, addr: usize) -> (r: Option<usize>) {
        proof {
            self.lemma_blocks();
        }
        self.buddy_free(addr)
    }

    fn fits(start_addr: usize, size: usize) -> (r: bool) {
        if DEPTH > 27 {
            return false;
        }
        proof {
            lemma2_to64();
            lemma_pow2_pos(DEPTH as nat);
            if DEPTH < 27 {
                lemma_pow2_strictly_increases(DEPTH as nat, 27);
                lemma_pow2_strictly_increases((DEPTH + 1) as nat, 28);
            }
            lemma_pow2_unfold((DEPTH + 1) as nat);
        }
        let pages: u64 = 1u64 << DEPTH as u64;
        proof {
            vstd::bits::lemma_u64_shl_is_mul(1, DEPTH as u64);
        }
        let nodes: u64 = 2 * pages - 1;
        NUM_NODES32 as u64 >= (nodes + 31) / 32 && start_addr % SIZE_64K == 0 && size as u64 == pages
            * 65536 && start_addr <= usize::MAX - size
    }

    fn new(start_addr: usize, size: usize) -> (r: Self) {
        let r = Self { min_size: SIZE_64K, start: start_addr, bitmap: [0; NUM_NODES32] };
        proof {
            assert forall|i: int| 0 <= i < 32 * NUM_NODES32 implies #[trigger] r.tag(i) == 0 by {
                assert(r.bitmap@[i / 32] == 0);
                let w: u64 = 0;
                let j = (i % 32) as u64;
                assert((w >> (2 * j)) & 3 == 0) by (bit_vector)
                    requires w == 0;
            }
            assert forall|d: nat, o: nat| Self::valid(d, o) implies #[trigger] r.tagd(d, o) == 0 by {
                r.lemma_index(d, o, d, o);
            }
            lemma2_to64();
            assert(Self::valid(0, 0));
            assert(r.blocks_in(0, 0) =~= Map::<int, int>::empty());
        }
        r
    }
}

} // verus!
