//! x86_64 SSE2-width helpers built on top of [`SimdBlock`]: 16-byte lanes.
//!
//! These helpers consume the traversal's in-bounds load guarantee: a
//! `SimdBlock<'_, STEP, 16>` always has 16 readable bytes at its offset.
use vstd::prelude::*;

use crate::blocks::SimdBlock;
use crate::lanes::{
    any_lane_eq, is_match_mask16, lane16, lemma_empty_masks, lemma_mask16_nonzero, lemma_set_lane16,
};

verus! {

/// Returns a bitmask of lanes equal to `needle`.
///
/// Bit `i` in the returned mask corresponds to byte lane `i` in the loaded
/// 16-byte block.
pub fn match_byte_mask_u8x16<const STEP: usize>(block: SimdBlock<'_, STEP, 16>, needle: u8) -> (r: u16)
    ensures
        block.window().len() == 16,
        is_match_mask16(r, block.window(), needle),
{
    match_byte_mask_window_u8x16(block.load_slice(), needle)
}

/// Returns `true` if any byte in the 16-byte block equals `needle`.
pub fn any_byte_eq_u8x16<const STEP: usize>(block: SimdBlock<'_, STEP, 16>, needle: u8) -> (r: bool)
    ensures
        r == any_lane_eq(block.window(), needle, 16),
{
    let mask = match_byte_mask_u8x16(block, needle);
    proof {
        lemma_mask16_nonzero(mask, block.window(), needle);
    }
    mask != 0
}

/// Computes the 16-lane match mask of the first 16 bytes of `window`.
pub(crate) fn match_byte_mask_window_u8x16(window: &[u8], needle: u8) -> (r: u16)
    requires
        window@.len() >= 16,
    ensures
        is_match_mask16(r, window@, needle),
{
    let mut mask: u16 = 0;
    let mut i: u16 = 0;
    assert forall|j: u16| j < 16 implies !#[trigger] lane16(mask, j) by {
        lemma_empty_masks(j, 0);
    }
    while i < 16
        invariant
            i <= 16,
            window@.len() >= 16,
            forall|j: u16| j < i ==> (#[trigger] lane16(mask, j) <==> window@[j as int] == needle),
            forall|j: u16| i <= j < 16 ==> !#[trigger] lane16(mask, j),
        decreases 16 - i,
    {
        if window[i as usize] == needle {
            let next = mask | (1u16 << i);
            assert forall|j: u16| j < 16 implies #[trigger] lane16(next, j) == (j == i || lane16(
                mask,
                j,
            )) by {
                lemma_set_lane16(mask, i, j);
            }
            mask = next;
        }
        i = i + 1;
    }
    mask
}

} // verus!
