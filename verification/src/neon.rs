//! ARM64 NEON-style helpers built on top of [`SimdBlock`]: 16-byte lanes.
//!
//! The lanes are first compared into a 16-byte lane vector (`0xFF` where the
//! byte equals the needle, `0` elsewhere), which is then folded into a mask.
use vstd::prelude::*;

use crate::blocks::SimdBlock;
use crate::lanes::{
    any_lane_eq, is_match_mask16, lane16, lemma_empty_masks, lemma_mask16_nonzero, lemma_set_lane16,
};

verus! {

/// Returns a bitmask of lanes equal to `needle`.
///
/// Bit `i` in the returned mask corresponds to byte lane `i` in the loaded
/// 16-byte block.
pub fn match_byte_mask_u8x16<const STEP: usize>(block: SimdBlock<'_, STEP, 16>, needle: u8) -> (r: u16)
    ensures
        block.window().len() == 16,
        is_match_mask16(r, block.window(), needle),
{
    let bytes = block.load();
    let mut lanes = [0u8; 16];
    let mut i: usize = 0;
    while i < 16
        invariant
            i <= 16,
            bytes@ == block.window(),
            bytes@.len() == 16,
            forall|j: int| 0 <= j < i ==> #[trigger] lanes@[j] == if bytes@[j] == needle {
                0xFFu8
            } else {
                0u8
            },
        decreases 16 - i,
    {
        lanes[i] = if bytes[i] == needle { 0xFFu8 } else { 0u8 };
        i = i + 1;
    }
    let mut mask: u16 = 0;
    let mut index: u16 = 0;
    assert forall|j: u16| j < 16 implies !#[trigger] lane16(mask, j) by {
        lemma_empty_masks(j, 0);
    }
    while index < 16
        invariant
            index <= 16,
            bytes@ == block.window(),
            bytes@.len() == 16,
            forall|j: int| 0 <= j < 16 ==> #[trigger] lanes@[j] == if bytes@[j] == needle {
                0xFFu8
            } else {
                0u8
            },
            forall|j: u16| j < index ==> (#[trigger] lane16(mask, j) <==> bytes@[j as int]
                == needle),
            forall|j: u16| index <= j < 16 ==> !#[trigger] lane16(mask, j),
        decreases 16 - index,
    {
        let lane = lanes[index as usize];
        if lane != 0 {
            let next = mask | (1u16 << index);
            assert forall|j: u16| j < 16 implies #[trigger] lane16(next, j) == (j == index || lane16(
                mask,
                j,
            )) by {
                lemma_set_lane16(mask, index, j);
            }
            mask = next;
        }
        index = index + 1;
    }
    mask
}

/// Returns `true` if any byte in the 16-byte block equals `needle`.
pub fn any_byte_eq_u8x16<const STEP: usize>(block: SimdBlock<'_, STEP, 16>, needle: u8) -> (r: bool)
    ensures
        r == any_lane_eq(block.window(), needle, 16),
{
    let mask = match_byte_mask_u8x16(block, needle);
    proof {
        lemma_mask16_nonzero(mask, block.window(), needle);
    }
    mask != 0
}

} // verus!
