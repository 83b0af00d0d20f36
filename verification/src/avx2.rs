//! x86_64 AVX2-width helpers built on top of [`SimdBlock`]: 32-byte lanes.
//!
//! These helpers consume the traversal's in-bounds load guarantee: a
//! `SimdBlock<'_, STEP, 32>` always has 32 readable bytes at its offset.
use vstd::prelude::*;

use crate::blocks::SimdBlock;
use crate::lanes::{
    any_lane_eq, is_match_mask32, lane32, lemma_empty_masks, lemma_mask32_nonzero, lemma_set_lane32,
};

verus! {

/// Returns a bitmask of lanes equal to `needle`.
///
/// Bit `i` in the returned mask corresponds to byte lane `i` in the loaded
/// 32-byte block.
pub fn match_byte_mask_u8x32<const STEP: usize>(block: SimdBlock<'_, STEP, 32>, needle: u8) -> (r: u32)
    ensures
        block.window().len() == 32,
        is_match_mask32(r, block.window(), needle),
{
    match_byte_mask_window_u8x32(block.load_slice(), needle)
}

/// Returns `true` if any byte in the 32-byte block equals `needle`.
pub fn any_byte_eq_u8x32<const STEP: usize>(block: SimdBlock<'_, STEP, 32>, needle: u8) -> (r: bool)
    ensures
        r == any_lane_eq(block.window(), needle, 32),
{
    let mask = match_byte_mask_u8x32(block, needle);
    proof {
        lemma_mask32_nonzero(mask, block.window(), needle);
    }
    mask != 0
}

/// Computes the 32-lane match mask of the first 32 bytes of `window`.
pub(crate) fn match_byte_mask_window_u8x32(window: &[u8], needle: u8) -> (r: u32)
    requires
        window@.len() >= 32,
    ensures
        is_match_mask32(r, window@, needle),
{
    let mut mask: u32 = 0;
    let mut i: u32 = 0;
    assert forall|j: u32| j < 32 implies !#[trigger] lane32(mask, j) by {
        lemma_empty_masks(0, j);
    }
    while i < 32
        invariant
            i <= 32,
            window@.len() >= 32,
            forall|j: u32| j < i ==> (#[trigger] lane32(mask, j) <==> window@[j as int] == needle),
            forall|j: u32| i <= j < 32 ==> !#[trigger] lane32(mask, j),
        decreases 32 - i,
    {
        if window[i as usize] == needle {
            let next = mask | (1u32 << i);
            assert forall|j: u32| j < 32 implies #[trigger] lane32(next, j) == (j == i || lane32(
                mask,
                j,
            )) by {
                lemma_set_lane32(mask, i, j);
            }
            mask = next;
        }
        i = i + 1;
    }
    mask
}

} // verus!
