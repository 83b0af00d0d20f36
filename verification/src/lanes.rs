//! Byte-lane match masks: bit `i` of a mask stands for byte lane `i` of a
//! load window.
use vstd::prelude::*;
use vstd::std_specs::bits::{
    axiom_u16_trailing_zeros, axiom_u32_trailing_zeros, u16_trailing_zeros, u32_trailing_zeros,
};

verus! {

/// Whether bit `i` of a 16-lane mask is set.
pub open spec fn lane16(mask: u16, i: u16) -> bool {
    (mask >> i) & 1u16 == 1u16
}

/// Whether bit `i` of a 32-lane mask is set.
pub open spec fn lane32(mask: u32, i: u32) -> bool {
    (mask >> i) & 1u32 == 1u32
}

/// `mask` has bit `i` set exactly for the lanes `i < 16` of `lanes` that
/// equal `needle`.
pub open spec fn is_match_mask16(mask: u16, lanes: Seq<u8>, needle: u8) -> bool {
    forall|i: u16| i < 16 ==> (#[trigger] lane16(mask, i) <==> lanes[i as int] == needle)
}

/// `mask` has bit `i` set exactly for the lanes `i < 32` of `lanes` that
/// equal `needle`.
pub open spec fn is_match_mask32(mask: u32, lanes: Seq<u8>, needle: u8) -> bool {
    forall|i: u32| i < 32 ==> (#[trigger] lane32(mask, i) <==> lanes[i as int] == needle)
}

/// Some lane among the first `n` of `lanes` equals `needle`.
pub open spec fn any_lane_eq(lanes: Seq<u8>, needle: u8, n: int) -> bool {
    exists|i: int| 0 <= i < n && lanes[i] == needle
}

/// Setting bit `i` of a 16-lane mask sets lane `i` and keeps every other lane.
pub(crate) proof fn lemma_set_lane16(mask: u16, i: u16, j: u16)
    requires
        i < 16,
        j < 16,
    ensures
        lane16(mask | (1u16 << i), j) == (j == i || lane16(mask, j)),
{
    assert(((mask | (1u16 << i)) >> j) & 1u16 == 1u16 <==> (j == i || (mask >> j) & 1u16 == 1u16))
        by (bit_vector)
        requires
            i < 16,
            j < 16,
    ;
}

/// Setting bit `i` of a 32-lane mask sets lane `i` and keeps every other lane.
pub(crate) proof fn lemma_set_lane32(mask: u32, i: u32, j: u32)
    requires
        i < 32,
        j < 32,
    ensures
        lane32(mask | (1u32 << i), j) == (j == i || lane32(mask, j)),
{
    assert(((mask | (1u32 << i)) >> j) & 1u32 == 1u32 <==> (j == i || (mask >> j) & 1u32 == 1u32))
        by (bit_vector)
        requires
            i < 32,
            j < 32,
    ;
}

/// The empty mask has no lane set.
pub(crate) proof fn lemma_empty_masks(j16: u16, j32: u32)
    ensures
        !lane16(0u16, j16),
        !lane32(0u32, j32),
{
    assert((0u16 >> j16) & 1u16 == 0u16) by (bit_vector);
    assert((0u32 >> j32) & 1u32 == 0u32) by (bit_vector);
}

/// Joining a low and a high 16-lane mask into a 32-lane mask puts the low
/// lanes at `0..16` and the high lanes at `16..32`.
pub proof fn lemma_join_lanes(low: u16, high: u16, j: u32)
    requires
        j < 32,
    ensures
        lane32((low as u32) | ((high as u32) << 16u32), j) == if j < 16 {
            lane16(low, j as u16)
        } else {
            lane16(high, (j - 16) as u16)
        },
{
    let lo = low as u32;
    let hi = high as u32;
    assert(j < 16 ==> ((((lo | (hi << 16u32)) >> j) & 1u32 == 1u32) <==> ((lo >> j) & 1u32 == 1u32)))
        by (bit_vector)
        requires
            lo <= 0xffff,
            hi <= 0xffff,
            j < 32,
    ;
    assert(16 <= j ==> ((((lo | (hi << 16u32)) >> j) & 1u32 == 1u32) <==> ((hi >> ((j
        - 16) as u32)) & 1u32 == 1u32))) by (bit_vector)
        requires
            lo <= 0xffff,
            hi <= 0xffff,
            j < 32,
    ;
    assert(j < 16 ==> (((lo >> j) & 1u32 == 1u32) <==> ((low >> (j as u16)) & 1u16 == 1u16)))
        by (bit_vector)
        requires
            lo == low as u32,
            j < 32,
    ;
    assert(16 <= j ==> (((hi >> ((j - 16) as u32)) & 1u32 == 1u32) <==> ((high >> ((j
        - 16) as u16)) & 1u16 == 1u16))) by (bit_vector)
        requires
            hi == high as u32,
            j < 32,
    ;
}

/// A 16-lane match mask is nonzero exactly when some of the 16 lanes equals
/// the needle.
pub proof fn lemma_mask16_nonzero(mask: u16, lanes: Seq<u8>, needle: u8)
    requires
        lanes.len() >= 16,
        is_match_mask16(mask, lanes, needle),
    ensures
        (mask != 0) == any_lane_eq(lanes, needle, 16),
{
    if mask != 0 {
        axiom_u16_trailing_zeros(mask);
        let k = u16_trailing_zeros(mask) as u16;
        assert(lane16(mask, k));
        assert(lanes[k as int] == needle);
    } else {
        assert forall|i: int| 0 <= i < 16 implies lanes[i] != needle by {
            lemma_empty_masks(i as u16, 0);
            assert(!lane16(mask, i as u16));
        }
    }
}

/// A 32-lane match mask is nonzero exactly when some of the 32 lanes equals
/// the needle.
pub proof fn lemma_mask32_nonzero(mask: u32, lanes: Seq<u8>, needle: u8)
    requires
        lanes.len() >= 32,
        is_match_mask32(mask, lanes, needle),
    ensures
        (mask != 0) == any_lane_eq(lanes, needle, 32),
{
    if mask != 0 {
        axiom_u32_trailing_zeros(mask);
        let k = u32_trailing_zeros(mask);
        assert(lane32(mask, k));
        assert(lanes[k as int] == needle);
    } else {
        assert forall|i: int| 0 <= i < 32 implies lanes[i] != needle by {
            lemma_empty_masks(0, i as u32);
            assert(!lane32(mask, i as u32));
        }
    }
}

/// A 16-lane match mask is determined by its lanes: any two masks that both
/// mark exactly the matching lanes of the same bytes are equal, so every
/// backend that meets this contract returns the same mask.
pub proof fn lemma_match_mask16_unique(m1: u16, m2: u16, lanes: Seq<u8>, needle: u8)
    requires
        is_match_mask16(m1, lanes, needle),
        is_match_mask16(m2, lanes, needle),
    ensures
        m1 == m2,
{
    if m1 != m2 {
        let x = m1 ^ m2;
        assert(x != 0) by (bit_vector)
            requires
                m1 != m2,
                x == m1 ^ m2,
        ;
        axiom_u16_trailing_zeros(x);
        let t = u16_trailing_zeros(x) as u16;
        assert(lane16(m1, t) != lane16(m2, t)) by (bit_vector)
            requires
                x == m1 ^ m2,
                (x >> t) & 1u16 == 1u16,
        ;
        assert(lane16(m1, t) <==> lanes[t as int] == needle);
    }
}

/// A 32-lane match mask is determined by its lanes: any two masks that both
/// mark exactly the matching lanes of the same bytes are equal, so every
/// backend that meets this contract returns the same mask.
pub proof fn lemma_match_mask32_unique(m1: u32, m2: u32, lanes: Seq<u8>, needle: u8)
    requires
        is_match_mask32(m1, lanes, needle),
        is_match_mask32(m2, lanes, needle),
    ensures
        m1 == m2,
{
    if m1 != m2 {
        let x = m1 ^ m2;
        assert(x != 0) by (bit_vector)
            requires
                m1 != m2,
                x == m1 ^ m2,
        ;
        axiom_u32_trailing_zeros(x);
        let t = u32_trailing_zeros(x);
        assert(lane32(m1, t) != lane32(m2, t)) by (bit_vector)
            requires
                x == m1 ^ m2,
                (x >> t) & 1u32 == 1u32,
        ;
        assert(lane32(m1, t) <==> lanes[t as int] == needle);
    }
}

} // verus!
