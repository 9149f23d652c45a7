//! Bitmaps of 64 slots in a `u64`, slot 0 being the most significant bit.
use vstd::prelude::*;
use vstd::std_specs::bits::u64_leading_zeros;
use vstd::std_specs::bits::axiom_u64_leading_zeros;

verus! {

/// Whether slot `i` of `w` is set.
pub open spec fn bit(w: u64, i: int) -> bool {
    (w >> (63 - i) as u64) & 1 == 1
}

/// The first clear slot of a word that has one, and every slot before it is set.
pub proof fn lemma_first_clear(w: u64)
    requires
        w != !0u64,
    ensures
        0 <= u64_leading_zeros(!w) < 64,
        !bit(w, u64_leading_zeros(!w)),
        forall|i: int| 0 <= i < u64_leading_zeros(!w) ==> #[trigger] bit(w, i),
{
    let x = !w;
    axiom_u64_leading_zeros(x);
    assert(x != 0) by (bit_vector)
        requires x == !w, w != !0u64;
    let lz = u64_leading_zeros(x);
    let s = (63 - lz) as u64;
    assert((x >> s) & 1u64 != 0u64 ==> (w >> s) & 1 != 1) by (bit_vector)
        requires x == !w;
    assert forall|i: int| 0 <= i < lz implies #[trigger] bit(w, i) by {
        let j = (63 - i) as u64;
        assert(64 - lz <= j < 64);
        assert((x >> j) & 1u64 == 0u64);
        assert((x >> j) & 1u64 == 0u64 ==> (w >> j) & 1 == 1) by (bit_vector)
            requires x == !w, j < 64;
    }
}

/// Every slot of a full word is set.
pub proof fn lemma_full(w: u64, i: int)
    requires
        w == !0u64,
        0 <= i < 64,
    ensures
        bit(w, i),
{
    let s = (63 - i) as u64;
    assert((w >> s) & 1 == 1) by (bit_vector)
        requires w == !0u64, s < 64;
}

/// Setting slot `i` sets it and leaves the others.
pub proof fn lemma_set(w: u64, i: int, j: int)
    requires
        0 <= i < 64,
        0 <= j < 64,
    ensures
        bit(w | (1u64 << (63 - i) as u64), j) == (j == i || bit(w, j)),
{
    let a = (63 - i) as u64;
    let b = (63 - j) as u64;
    assert((((w | (1u64 << a)) >> b) & 1 == 1) == (a == b || (w >> b) & 1 == 1)) by (bit_vector)
        requires a < 64, b < 64;
}

/// Clearing slot `i` clears it and leaves the others.
pub proof fn lemma_clear(w: u64, i: int, j: int)
    requires
        0 <= i < 64,
        0 <= j < 64,
    ensures
        bit(w & !(1u64 << (63 - i) as u64), j) == (j != i && bit(w, j)),
        w & !(1u64 << (63 - i) as u64) != !0u64,
{
    let a = (63 - i) as u64;
    let b = (63 - j) as u64;
    assert((((w & !(1u64 << a)) >> b) & 1 == 1) == (a != b && (w >> b) & 1 == 1)) by (bit_vector)
        requires a < 64, b < 64;
    assert(w & !(1u64 << a) != !0u64) by (bit_vector)
        requires a < 64;
}

} // verus!
